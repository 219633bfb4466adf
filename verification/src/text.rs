//! Text: the decimal digits of a number, and bytes that are read as UTF-8.

use vstd::arithmetic::power::{lemma_pow_adds, pow};
use vstd::prelude::*;
use vstd::slice::slice_to_vec;
use vstd::utf8::*;

verus! {

/// The error of [`String::from_utf8`], carried but not looked into.
#[verifier::external_type_specification]
#[verifier::external_body]
pub struct ExFromUtf8Error(std::string::FromUtf8Error);

/// [`String::from_utf8`]: the text is made exactly where the bytes are valid UTF-8, and then
/// it is the text that they encode.
pub assume_specification[ String::from_utf8 ](bytes: Vec<u8>) -> (text: Result<
    String,
    std::string::FromUtf8Error,
>)
    ensures
        text is Ok <==> valid_utf8(bytes@),
        text matches Ok(made) ==> encode_utf8(made@) == bytes@,
;

/// [`String::push`]: the character goes to the end of the text.
pub assume_specification[ String::push ](text: &mut String, c: char)
    ensures
        final(text)@ == old(text)@.push(c),
;

/// The decimal digits of `n`, no leading zero but for zero itself.
pub open spec fn digits(n: nat) -> Seq<char>
    decreases n,
{
    if n < 10 {
        seq![digit(n)]
    } else {
        digits(n / 10).push(digit(n % 10))
    }
}

/// The character of one decimal digit.
pub open spec fn digit(n: nat) -> char {
    if n == 0 {
        '0'
    } else if n == 1 {
        '1'
    } else if n == 2 {
        '2'
    } else if n == 3 {
        '3'
    } else if n == 4 {
        '4'
    } else if n == 5 {
        '5'
    } else if n == 6 {
        '6'
    } else if n == 7 {
        '7'
    } else if n == 8 {
        '8'
    } else {
        '9'
    }
}

/// `n` in decimal.
pub fn decimal(n: u64) -> (text: String)
    ensures
        text@ == digits(n as nat),
    decreases n,
{
    let c = digit_char(n % 10);
    let mut text = if n < 10 {
        String::new()
    } else {
        decimal(n / 10)
    };
    text.push(c);
    text
}

fn digit_char(n: u64) -> (c: char)
    requires
        n < 10,
    ensures
        c == digit(n as nat),
{
    match n {
        0 => '0',
        1 => '1',
        2 => '2',
        3 => '3',
        4 => '4',
        5 => '5',
        6 => '6',
        7 => '7',
        8 => '8',
        _ => '9',
    }
}

/// Two numbers with the same decimal digits are one number.
pub proof fn law_decimal_is_injective(a: nat, b: nat)
    requires
        digits(a) == digits(b),
    ensures
        a == b,
    decreases a,
{
    lemma_digits_not_empty(a);
    lemma_digits_not_empty(b);
    assert(digits(a).last() == digits(b).last());
    if a >= 10 && b >= 10 {
        assert(digits(a).drop_last() =~= digits(a / 10));
        assert(digits(b).drop_last() =~= digits(b / 10));
        law_decimal_is_injective(a / 10, b / 10);
    } else if a >= 10 {
        lemma_digits_not_empty(a / 10);
    } else if b >= 10 {
        lemma_digits_not_empty(b / 10);
    }
}

proof fn lemma_digits_not_empty(n: nat)
    ensures
        digits(n).len() > 0,
        digits(n).last() == digit(n % 10),
{
}

/// How many digits a number below a power of ten has.
proof fn lemma_digits_length(n: nat, k: nat)
    requires
        k > 0,
        n < pow(10, k),
    ensures
        digits(n).len() <= k,
    decreases k,
{
    reveal(pow);
    if n >= 10 {
        assert(pow(10, k) == 10 * pow(10, (k - 1) as nat));
        if k == 1 {
            assert(pow(10, 0) == 1);
        }
        lemma_digits_length(n / 10, (k - 1) as nat);
    }
}

/// A number of 64 bits has at most twenty digits.
pub proof fn law_decimal_is_short(n: u64)
    ensures
        digits(n as nat).len() <= 20,
{
    lemma_pow_adds(10, 10, 10);
    assert(pow(10, 10) == 10_000_000_000) by {
        reveal_with_fuel(pow, 11);
    }
    assert(10_000_000_000int * 10_000_000_000int > u64::MAX) by (nonlinear_arith);
    lemma_digits_length(n as nat, 20);
}

/// A character takes at most four bytes.
pub proof fn law_encoding_is_short(text: Seq<char>)
    ensures
        encode_utf8(text).len() <= 4 * text.len(),
    decreases text.len(),
{
    if text.len() > 0 {
        law_encoding_is_short(text.drop_first());
    }
}

/// The text that `bytes` encode, or nothing where they are not UTF-8.
pub open spec fn text_of(bytes: Seq<u8>) -> Option<Seq<char>> {
    if valid_utf8(bytes) {
        Some(decode_utf8(bytes))
    } else {
        None
    }
}

/// `bytes` as text.
pub fn utf8_text(bytes: &[u8]) -> (text: Option<String>)
    ensures
        text is Some <==> text_of(bytes@) is Some,
        text matches Some(made) ==> Some(made@) == text_of(bytes@),
{
    proof {
        if valid_utf8(bytes@) {
            decode_utf8_encode_utf8(bytes@);
        }
    }
    let owned = slice_to_vec(bytes);
    match String::from_utf8(owned) {
        Ok(made) => {
            proof {
                encode_utf8_decode_utf8(made@);
            }
            Some(made)
        },
        Err(_) => None,
    }
}

/// Text survives its own encoding: the bytes of any text read back as that text.
pub proof fn law_text_reads_back(text: Seq<char>)
    ensures
        text_of(encode_utf8(text)) == Some(text),
{
    encode_utf8_valid_utf8(text);
    encode_utf8_decode_utf8(text);
}

/// Every digit is one of the ten, the last one counts the ones, and those before it are the digits
/// of the tens; a number of more than one digit does not begin with zero.
pub proof fn law_digits_count_in_tens(n: nat)
    ensures
        digits(n).len() > 0,
        forall|i: int| 0 <= i < digits(n).len() ==> '0' <= #[trigger] digits(n)[i] <= '9',
        digits(n).last() as u32 == 48 + n % 10,
        n < 10 ==> digits(n).len() == 1,
        n >= 10 ==> digits(n).drop_last() == digits(n / 10),
        n > 0 ==> digits(n)[0] != '0',
    decreases n,
{
    if n >= 10 {
        law_digits_count_in_tens(n / 10);
        let tens = digits(n / 10);
        assert(digits(n).drop_last() =~= tens);
        assert forall|i: int| 0 <= i < digits(n).len() implies '0' <= #[trigger] digits(n)[i]
            <= '9' by {
            if i < tens.len() {
                assert(digits(n)[i] == tens[i]);
            }
        }
        assert(digits(n)[0] == tens[0]);
    }
}

/// Bytes are read as exactly the text that they are the encoding of.
pub proof fn law_text_is_what_the_bytes_encode(bytes: Seq<u8>, text: Seq<char>)
    ensures
        text_of(bytes) == Some(text) <==> encode_utf8(text) == bytes,
        text_of(bytes) is None <==> !valid_utf8(bytes),
{
    if valid_utf8(bytes) {
        decode_utf8_encode_utf8(bytes);
    }
    law_text_reads_back(text);
}

} // verus!
