//! Text that the library reads from bytes or puts together itself.

use std::string::FromUtf8Error;
use vstd::prelude::*;
use vstd::utf8::*;

verus! {

/// `String::from_utf8`: accepts exactly the well-formed UTF-8 encodings, and
/// gives the text that the bytes encode.
pub assume_specification[ String::from_utf8 ](vec: Vec<u8>) -> (parsed: core::result::Result<
    String,
    FromUtf8Error,
>)
    ensures
        parsed is Ok <==> valid_utf8(vec@),
        parsed matches Ok(s) ==> s@ == decode_utf8(vec@),
;

/// `number` in decimal digits.
pub open spec fn decimal_text(number: nat) -> Seq<char>
    decreases number,
{
    if number < 10 {
        digit_text(number)
    } else {
        decimal_text(number / 10) + digit_text(number % 10)
    }
}

/// One decimal digit.
pub open spec fn digit_text(digit: nat) -> Seq<char> {
    if digit == 0 {
        "0"@
    } else if digit == 1 {
        "1"@
    } else if digit == 2 {
        "2"@
    } else if digit == 3 {
        "3"@
    } else if digit == 4 {
        "4"@
    } else if digit == 5 {
        "5"@
    } else if digit == 6 {
        "6"@
    } else if digit == 7 {
        "7"@
    } else if digit == 8 {
        "8"@
    } else {
        "9"@
    }
}

fn digit(value: u64) -> (text: &'static str)
    requires
        value < 10,
    ensures
        text@ == digit_text(value as nat),
{
    if value == 0 {
        "0"
    } else if value == 1 {
        "1"
    } else if value == 2 {
        "2"
    } else if value == 3 {
        "3"
    } else if value == 4 {
        "4"
    } else if value == 5 {
        "5"
    } else if value == 6 {
        "6"
    } else if value == 7 {
        "7"
    } else if value == 8 {
        "8"
    } else {
        "9"
    }
}

/// `number` in decimal digits.
pub fn decimal(number: u64) -> (text: String)
    ensures
        text@ == decimal_text(number as nat),
    decreases number,
{
    if number < 10 {
        String::from_str(digit(number))
    } else {
        let mut text = decimal(number / 10);
        text.append(digit(number % 10));
        text
    }
}

/// The two texts, one after the other.
pub fn joined(first: &str, second: &str) -> (text: String)
    ensures
        text@ == first@ + second@,
{
    let mut text = String::from_str(first);
    text.append(second);
    text
}

/// The characters of a text, one by one.
pub fn chars_of(text: &str) -> (chars: Vec<char>)
    ensures
        chars@ == text@,
{
    let mut chars: Vec<char> = Vec::new();
    for c in it: text.chars()
        invariant
            it.seq() == text@,
            chars@ == text@.take(it.index() as int),
    {
        chars.push(c);
    }
    chars
}

/// Encoding a text and decoding the bytes gives the text back.
pub proof fn lemma_utf8_round_trip(text: Seq<char>)
    ensures
        valid_utf8(encode_utf8(text)),
        decode_utf8(encode_utf8(text)) == text,
{
    encode_utf8_valid_utf8(text);
    encode_utf8_decode_utf8(text);
}

/// The number that decimal digits spell, the first of them weighing most.
pub open spec fn spelled(digits: Seq<char>) -> nat
    decreases digits.len(),
{
    if digits.len() == 0 {
        0
    } else {
        spelled(digits.drop_last()) * 10 + (digits.last() as nat - '0' as nat) as nat
    }
}

/// A number is written in digits that spell it, without zeros before it.
pub proof fn law_decimal_spells(number: u64, digits: String)
    requires
        call_ensures(decimal, (number,), digits),
    ensures
        digits@.len() > 0,
        forall|i: int| 0 <= i < digits@.len() ==> '0' <= #[trigger] digits@[i] <= '9',
        spelled(digits@) == number,
        digits@.len() > 1 ==> digits@[0] != '0',
{
    lemma_decimal_spells(number as nat);
}

/// A number is written in digits that spell it, without zeros before it.
pub(crate) proof fn lemma_decimal_spells(number: nat)
    ensures
        decimal_text(number).len() > 0,
        forall|i: int|
            0 <= i < decimal_text(number).len() ==> '0' <= #[trigger] decimal_text(number)[i]
                <= '9',
        spelled(decimal_text(number)) == number,
        number > 0 ==> decimal_text(number)[0] != '0',
        number == 0 ==> decimal_text(number).len() == 1,
    decreases number,
{
    reveal_strlit("0");
    reveal_strlit("1");
    reveal_strlit("2");
    reveal_strlit("3");
    reveal_strlit("4");
    reveal_strlit("5");
    reveal_strlit("6");
    reveal_strlit("7");
    reveal_strlit("8");
    reveal_strlit("9");
    let all = decimal_text(number);
    if number < 10 {
        assert(all.drop_last() =~= Seq::empty());
        assert(spelled(all.drop_last()) == 0);
    } else {
        let front = decimal_text(number / 10);
        let last = digit_text(number % 10);
        lemma_decimal_spells(number / 10);
        assert(last.len() == 1);
        assert(all.drop_last() =~= front);
        assert(all.last() == last[0]);
        assert(all[0] == front[0]);
        assert forall|i: int| 0 <= i < all.len() implies '0' <= #[trigger] all[i] <= '9' by {
            if i < front.len() {
                assert(all[i] == front[i]);
            }
        }
    }
}

/// Two texts are joined without loss, and a text is made of its characters.
pub proof fn law_texts_are_kept(first: &str, second: &str, both: String, chars: Vec<char>)
    requires
        call_ensures(joined, (first, second), both),
        call_ensures(chars_of, (first,), chars),
    ensures
        both@.len() == first@.len() + second@.len(),
        both@.take(first@.len() as int) == first@,
        both@.skip(first@.len() as int) == second@,
        chars@ == first@,
{
    assert(both@.take(first@.len() as int) =~= first@);
    assert(both@.skip(first@.len() as int) =~= second@);
}

} // verus!
