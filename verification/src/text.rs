//! Strings as the library holds them, and the calls into std and `bytestring` that
//! convert between their forms.
use bytestring::ByteString;
use std::sync::Arc;
use vstd::prelude::*;
use vstd::string::StringExecFns;
use vstd::utf8::{decode_utf8, valid_utf8};

verus! {

/// `bytestring::ByteString`: an immutable, cheaply cloned UTF-8 string. Nothing of its
/// representation is known; its characters are [`byte_string_chars`].
#[verifier::external_type_specification]
#[verifier::external_body]
pub struct ExByteString(ByteString);

/// The characters that a `ByteString` holds.
pub uninterp spec fn byte_string_chars(text: ByteString) -> Seq<char>;

/// `ByteString::clone` yields a string with the same characters.
pub assume_specification[ <ByteString as Clone>::clone ](text: &ByteString) -> (copy: ByteString)
    ensures
        byte_string_chars(copy) == byte_string_chars(*text),
;

/// `ByteString::from(String)` holds the characters of the string it was made from.
#[verifier::external_body]
pub(crate) fn byte_string_from(text: String) -> (bytes: ByteString)
    ensures
        byte_string_chars(bytes) == text@,
{
    ByteString::from(text)
}

/// `ByteString` dereferences to a `str` with the same characters.
#[verifier::external_body]
pub(crate) fn byte_string_str(bytes: &ByteString) -> (text: &str)
    ensures
        text@ == byte_string_chars(*bytes),
{
    bytes
}

/// The longest front of at most `top` bytes that is valid UTF-8.
pub open spec fn valid_front(bytes: Seq<u8>, top: nat) -> nat
    decreases top,
{
    if top == 0 || valid_utf8(bytes.take(top as int)) {
        top
    } else {
        valid_front(bytes, (top - 1) as nat)
    }
}

/// What `Utf8Error::error_len` says of bytes that are not valid UTF-8: the length of the
/// invalid sequence behind their longest valid front, or `None` if they only break off.
pub uninterp spec fn utf8_error_len(bytes: Seq<u8>) -> Option<usize>;

/// `std::str::from_utf8` succeeds exactly on valid UTF-8, and yields the characters that the
/// bytes encode. Otherwise its error tells, by `valid_up_to`, the length of the longest valid
/// front, and by `error_len` what is wrong behind it; where that is that the bytes break off,
/// they do so in the middle of a character, one to three bytes behind the front.
#[verifier::external_body]
pub(crate) fn str_from_utf8(bytes: &[u8]) -> (text: Result<&str, (usize, Option<usize>)>)
    ensures
        text is Ok <==> valid_utf8(bytes@),
        match text {
            Ok(text) => text@ == decode_utf8(bytes@),
            Err((valid_up_to, error_len)) => {
                &&& valid_up_to == valid_front(bytes@, bytes@.len())
                &&& error_len == utf8_error_len(bytes@)
                &&& error_len is None ==> 1 <= bytes@.len() - valid_up_to <= 3
            },
        },
{
    match std::str::from_utf8(bytes) {
        Ok(text) => Ok(text),
        Err(error) => Err((error.valid_up_to(), error.error_len())),
    }
}

/// `Arc::<str>::from` holds the characters of the string it copies.
#[verifier::external_body]
pub(crate) fn arc_str(text: &str) -> (shared: Arc<str>)
    ensures
        shared@ == text@,
{
    Arc::from(text)
}

/// The decimal digits of `n`, most significant first.
pub open spec fn decimal(n: nat) -> Seq<char>
    decreases n,
{
    let digit = (('0' as int) + (n % 10) as int) as char;
    if n < 10 {
        seq![digit]
    } else {
        decimal(n / 10).push(digit)
    }
}

/// The decimal digit of `n`.
fn digit(n: u64) -> (text: &'static str)
    requires
        n < 10,
    ensures
        text@ == decimal(n as nat),
{
    proof {
        reveal_strlit("0");
        reveal_strlit("1");
        reveal_strlit("2");
        reveal_strlit("3");
        reveal_strlit("4");
        reveal_strlit("5");
        reveal_strlit("6");
        reveal_strlit("7");
        reveal_strlit("8");
        reveal_strlit("9");
    }
    let text = match n {
        0 => "0",
        1 => "1",
        2 => "2",
        3 => "3",
        4 => "4",
        5 => "5",
        6 => "6",
        7 => "7",
        8 => "8",
        _ => "9",
    };
    assert(text@ =~= decimal(n as nat));
    text
}

/// The number in decimal, without sign or padding.
pub(crate) fn decimal_string(n: u64) -> (text: String)
    ensures
        text@ == decimal(n as nat),
    decreases n,
{
    if n < 10 {
        digit(n).to_owned()
    } else {
        let mut text = decimal_string(n / 10);
        text.append(digit(n % 10));
        assert(text@ =~= decimal(n as nat));
        text
    }
}

/// The value of a sequence of decimal digits.
pub open spec fn decimal_value(digits: Seq<char>) -> int
    decreases digits.len(),
{
    if digits.len() == 0 {
        0
    } else {
        10 * decimal_value(digits.drop_last()) + (digits.last() as int - '0' as int)
    }
}

/// A number in decimal is made of digits, does not start with a zero unless it is zero, and has
/// that number as its value.
pub proof fn law_decimal_has_the_value(n: nat)
    ensures
        decimal(n).len() > 0,
        forall|i: int|
            0 <= i < decimal(n).len() ==> '0' as int <= (#[trigger] decimal(n)[i]) as int
                <= '9' as int,
        n > 0 ==> decimal(n)[0] != '0',
        decimal_value(decimal(n)) == n,
    decreases n,
{
    if n < 10 {
        reveal_with_fuel(decimal_value, 2);
        assert(decimal(n).drop_last() =~= Seq::empty());
    } else {
        law_decimal_has_the_value(n / 10);
        assert(decimal(n).drop_last() =~= decimal(n / 10));
        assert(decimal(n)[0] == decimal(n / 10)[0]);
    }
}

} // verus!
