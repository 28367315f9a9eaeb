//! Text made of bytes and numbers.
use core::str::Utf8Error;
use vstd::prelude::*;
use vstd::string::*;
use vstd::utf8::{decode_utf8, valid_utf8};

verus! {

/// The error of reading bytes as UTF-8.
#[verifier::external_type_specification]
#[verifier::external_body]
pub struct ExUtf8Error(Utf8Error);

/// `core::str::from_utf8` succeeds exactly on valid UTF-8, and then gives the text that the bytes
/// encode. What the error holds is left open.
pub assume_specification[ core::str::from_utf8 ](v: &[u8]) -> (r: Result<&str, Utf8Error>)
    ensures
        r is Ok <==> valid_utf8(v@),
        r matches Ok(s) ==> s@ == decode_utf8(v@),
;

/// What `String::from_utf8_lossy` makes of bytes.
pub uninterp spec fn lossy_text(bytes: Seq<u8>) -> Seq<char>;

/// `String::from_utf8_lossy` depends on nothing but its argument, and on valid UTF-8 it is the
/// text that the bytes encode. How it replaces what is not valid is left open.
#[verifier::external_body]
pub(crate) fn lossy(bytes: &[u8]) -> (text: String)
    ensures
        text@ == lossy_text(bytes@),
        valid_utf8(bytes@) ==> text@ == decode_utf8(bytes@),
{
    String::from_utf8_lossy(bytes).to_string()
}

/// A path between two pieces of text, as it is shown in messages.
pub fn around(before: &str, path: &[u8], after: &str) -> (text: String)
    ensures
        text@ == before@ + lossy_text(path@) + after@,
{
    let mut text = before.to_owned();
    text.append(lossy(path).as_str());
    text.append(after);
    text
}

/// One octal digit.
pub open spec fn octal_digit(digit: nat) -> Seq<char> {
    if digit == 0 {
        "0"@
    } else if digit == 1 {
        "1"@
    } else if digit == 2 {
        "2"@
    } else if digit == 3 {
        "3"@
    } else if digit == 4 {
        "4"@
    } else if digit == 5 {
        "5"@
    } else if digit == 6 {
        "6"@
    } else {
        "7"@
    }
}

/// A number in octal digits, without leading zeros.
pub open spec fn octal_text(number: nat) -> Seq<char>
    decreases number,
{
    if number < 8 {
        octal_digit(number)
    } else {
        octal_text(number / 8) + octal_digit(number % 8)
    }
}

/// The number that octal digits write.
pub open spec fn octal_value(text: Seq<char>) -> int
    decreases text.len(),
{
    if text.len() == 0 {
        0
    } else {
        8 * octal_value(text.drop_last()) + (text.last() as int - '0' as int)
    }
}

/// A single octal digit is one character, from `0` to `7`, that is worth the digit.
proof fn lemma_octal_digit(digit: nat)
    requires
        digit < 8,
    ensures
        octal_digit(digit).len() == 1,
        octal_digit(digit)[0] as int == '0' as int + digit,
{
    reveal_strlit("0");
    reveal_strlit("1");
    reveal_strlit("2");
    reveal_strlit("3");
    reveal_strlit("4");
    reveal_strlit("5");
    reveal_strlit("6");
    reveal_strlit("7");
}

/// A number in octal digits is written by digits from `0` to `7` that are worth the number, without
/// a zero in front unless it is all there is.
pub proof fn law_octal_is_worth_the_number(number: nat)
    ensures
        octal_value(octal_text(number)) == number,
        octal_text(number).len() > 0,
        octal_text(number).len() > 1 ==> octal_text(number)[0] != '0',
        forall|i: int|
            0 <= i < octal_text(number).len() ==> '0' <= #[trigger] octal_text(number)[i] <= '7',
    decreases number,
{
    if number < 8 {
        lemma_octal_digit(number);
        let text = octal_text(number);
        assert(text.drop_last() =~= Seq::empty());
        assert(octal_value(text.drop_last()) == 0);
    } else {
        law_octal_is_worth_the_number(number / 8);
        lemma_octal_digit(number % 8);
        let text = octal_text(number);
        let front = octal_text(number / 8);
        assert(text.drop_last() =~= front);
        assert(text.last() == octal_digit(number % 8)[0]);
        if front.len() == 1 && front[0] == '0' {
            assert(front.drop_last() =~= Seq::empty());
            assert(octal_value(front.drop_last()) == 0);
            assert(octal_value(front) == 0);
        }
        assert forall|i: int| 0 <= i < text.len() implies '0' <= #[trigger] text[i] <= '7' by {
            if i < front.len() {
                assert(text[i] == front[i]);
            }
        }
    }
}

/// Writes a number in octal digits.
pub fn octal(number: u32) -> (text: String)
    ensures
        text@ == octal_text(number as nat),
    decreases number,
{
    let digit: u32 = number % 8;
    let last: &str = if digit == 0 {
        "0"
    } else if digit == 1 {
        "1"
    } else if digit == 2 {
        "2"
    } else if digit == 3 {
        "3"
    } else if digit == 4 {
        "4"
    } else if digit == 5 {
        "5"
    } else if digit == 6 {
        "6"
    } else {
        "7"
    };
    if number < 8 {
        last.to_owned()
    } else {
        let mut text = octal(number / 8);
        text.append(last);
        text
    }
}

} // verus!
