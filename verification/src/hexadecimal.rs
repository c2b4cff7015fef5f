//! Bytes in hexadecimal notation.
use crate::text;
use vstd::prelude::*;
use vstd::string::*;

verus! {

/// The digit of one half of a byte.
pub open spec fn half_digit(bytes: Seq<u8>, i: int) -> char {
    if i % 2 == 0 {
        text::hex_digit((bytes[i / 2] / 16) as nat)
    } else {
        text::hex_digit((bytes[i / 2] % 16) as nat)
    }
}

/// Two lower-case digits for each of `bytes`, the high half first.
pub open spec fn hex_of(bytes: Seq<u8>) -> Seq<char> {
    Seq::new(2 * bytes.len(), |i: int| half_digit(bytes, i))
}

/// What a hexadecimal digit, in lower or upper case, stands for.
pub open spec fn digit_value(c: char) -> Option<u8> {
    let n = c as int;
    if 48 <= n <= 57 {
        Some((n - 48) as u8)
    } else if 65 <= n <= 70 {
        Some((n - 55) as u8)
    } else if 97 <= n <= 102 {
        Some((n - 87) as u8)
    } else {
        None
    }
}

/// `s` is a sequence of pairs of hexadecimal digits.
pub open spec fn is_hex(s: Seq<char>) -> bool {
    &&& s.len() % 2 == 0
    &&& forall|i: int| 0 <= i < s.len() ==> digit_value(#[trigger] s[i]) is Some
}

/// The bytes that pairs of hexadecimal digits stand for.
pub open spec fn bytes_in(s: Seq<char>) -> Seq<u8> {
    Seq::new(
        s.len() / 2,
        |i: int| (digit_value(s[2 * i])->0 * 16 + digit_value(s[2 * i + 1])->0) as u8,
    )
}

/// Bytes in hexadecimal notation.
///
/// Calls `hex::encode`, which writes two lower-case digits for each byte, the
/// high half first.
#[verifier::external_body]
pub(crate) fn encode(bytes: &Vec<u8>) -> (r: String)
    requires
        2 * bytes@.len() <= isize::MAX,
    ensures
        r@ == hex_of(bytes@),
{
    hex::encode(bytes)
}

/// The bytes that a text stands for in hexadecimal notation.
///
/// Calls `hex::decode`, which takes digits in lower and upper case and fails
/// where their number is odd or something else stands among them.
#[verifier::external_body]
pub(crate) fn decode(s: &str) -> (r: Option<Vec<u8>>)
    ensures
        match r {
            Some(bytes) => is_hex(s@) && bytes@ == bytes_in(s@),
            None => !is_hex(s@),
        },
{
    hex::decode(s).ok()
}

/// A hexadecimal digit stands for what it was made of.
proof fn lemma_digit_value(d: nat)
    requires
        d < 16,
    ensures
        digit_value(text::hex_digit(d)) == Some(d as u8),
{
    if d < 10 {
        assert(text::hex_digit(d) as int == 48 + d);
    } else {
        assert(text::hex_digit(d) as int == 97 + d - 10);
    }
}

/// Bytes that are written and read again are the same.
pub proof fn reading_undoes_writing(bytes: Seq<u8>)
    ensures
        is_hex(hex_of(bytes)),
        bytes_in(hex_of(bytes)) == bytes,
{
    let s = hex_of(bytes);
    assert forall|i: int| 0 <= i < s.len() implies digit_value(#[trigger] s[i]) is Some by {
        let b = bytes[i / 2];
        lemma_digit_value((b / 16) as nat);
        lemma_digit_value((b % 16) as nat);
    }
    assert forall|i: int| 0 <= i < bytes.len() implies bytes_in(s)[i] == bytes[i] by {
        let b = bytes[i];
        assert((2 * i) / 2 == i && (2 * i) % 2 == 0);
        assert((2 * i + 1) / 2 == i && (2 * i + 1) % 2 == 1);
        assert(s[2 * i] == half_digit(bytes, 2 * i));
        assert(s[2 * i + 1] == half_digit(bytes, 2 * i + 1));
        lemma_digit_value((b / 16) as nat);
        lemma_digit_value((b % 16) as nat);
        assert((b / 16) * 16 + b % 16 == b);
    }
    assert(bytes_in(s) =~= bytes);
}

/// Each byte is written as two digits, the greater first, and a digit is read in
/// either case.
pub proof fn bytes_are_two_digits(bytes: Seq<u8>, i: int, c: char)
    requires
        0 <= i < bytes.len(),
    ensures
        hex_of(bytes).len() == 2 * bytes.len(),
        hex_of(bytes)[2 * i] == text::hex_digit((bytes[i] / 16) as nat),
        hex_of(bytes)[2 * i + 1] == text::hex_digit((bytes[i] % 16) as nat),
        '0' <= c <= '9' ==> digit_value(c) == Some((c as int - '0' as int) as u8),
        'a' <= c <= 'f' ==> digit_value(c) == Some((c as int - 'a' as int + 10) as u8),
        'A' <= c <= 'F' ==> digit_value(c) == Some((c as int - 'A' as int + 10) as u8),
        !('0' <= c <= '9' || 'a' <= c <= 'f' || 'A' <= c <= 'F') ==> digit_value(c) is None,
{
}

/// Two digits are read as one byte, the greater first.
pub proof fn two_digits_are_a_byte(s: Seq<char>, i: int)
    requires
        is_hex(s),
        0 <= i < s.len() / 2,
    ensures
        s.len() % 2 == 0,
        bytes_in(s).len() == s.len() / 2,
        bytes_in(s)[i] == digit_value(s[2 * i])->0 * 16 + digit_value(s[2 * i + 1])->0,
{
    assert(digit_value(s[2 * i]) is Some);
    assert(digit_value(s[2 * i + 1]) is Some);
}

} // verus!
