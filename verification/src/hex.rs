//! Hexadecimal text.

use vstd::prelude::*;

use crate::text;

verus! {

/// Two lower-case digits for every byte, the high half first.
pub open spec fn hex_text(data: Seq<u8>) -> Seq<char> {
    Seq::new(
        data.len() * 2,
        |i: int|
            if i % 2 == 0 {
                text::digit_char((data[i / 2] / 16) as nat)
            } else {
                text::digit_char((data[i / 2] % 16) as nat)
            },
    )
}

/// Whether a character is a hexadecimal digit, in either case.
pub open spec fn is_hex_digit(c: char) -> bool {
    ||| '0' <= c <= '9'
    ||| 'a' <= c <= 'f'
    ||| 'A' <= c <= 'F'
}

/// What a hexadecimal digit counts for.
pub open spec fn hex_digit_value(c: char) -> nat {
    if c <= '9' {
        (c as nat - '0' as nat) as nat
    } else if c <= 'F' {
        (c as nat - 'A' as nat + 10) as nat
    } else {
        (c as nat - 'a' as nat + 10) as nat
    }
}

/// The text without a leading `0x` or `0X`, if it has one.
pub open spec fn without_hex_prefix(text: Seq<char>) -> Seq<char> {
    if text.len() >= 2 && text[0] == '0' && (text[1] == 'x' || text[1] == 'X') {
        text.skip(2)
    } else {
        text
    }
}

/// Whether `digits` is exactly `width` bytes written in hexadecimal.
pub open spec fn is_hex_of_width(digits: Seq<char>, width: nat) -> bool {
    &&& digits.len() == 2 * width
    &&& forall|i: int| 0 <= i < digits.len() ==> is_hex_digit(#[trigger] digits[i])
}

/// The bytes a string of hexadecimal digits spells, two digits to a byte.
pub open spec fn hex_bytes(digits: Seq<char>) -> Seq<u8> {
    Seq::new(
        digits.len() / 2,
        |i: int| (hex_digit_value(digits[2 * i]) * 16 + hex_digit_value(digits[2 * i + 1])) as u8,
    )
}

/// `const_hex::encode`: every byte becomes two lower-case digits. The length
/// bound keeps the text within what one allocation can hold.
#[verifier::external_body]
pub(crate) fn encode(data: &[u8]) -> (text: String)
    requires
        data@.len() * 2 <= isize::MAX,
    ensures
        text@ == hex_text(data@),
{
    const_hex::encode(data)
}

/// `const_hex::decode_to_slice` into an array: one leading `0x` or `0X` is
/// skipped, and the rest must be exactly `N` bytes of hexadecimal digits in
/// either case. Anything else is refused.
#[verifier::external_body]
pub(crate) fn decode_array<const N: usize>(text: &str) -> (out: Option<[u8; N]>)
    ensures
        out is Some <==> is_hex_of_width(without_hex_prefix(text@), N as nat),
        out matches Some(bytes) ==> bytes@ == hex_bytes(without_hex_prefix(text@)),
{
    let mut out = [0u8; N];
    match const_hex::decode_to_slice(text, &mut out) {
        Ok(()) => Some(out),
        Err(_) => None,
    }
}

/// The text of two byte strings one behind the other is their texts one behind
/// the other.
pub proof fn hex_text_joins(front: Seq<u8>, back: Seq<u8>)
    ensures
        hex_text(front + back) == hex_text(front) + hex_text(back),
{
    let n = front.len();
    assert forall|i: int| 0 <= i < hex_text(back).len() implies hex_text(front + back)[2 * n + i]
        == #[trigger] hex_text(back)[i] by {
        assert((2 * n + i) / 2 == n + i / 2 && (2 * n + i) % 2 == i % 2);
    }
    assert forall|i: int| 2 * n <= i < 2 * (n + back.len()) implies hex_text(front + back)[i] == (
    hex_text(front) + hex_text(back))[i] by {
        assert(hex_text(back)[i - 2 * n] == hex_text(front + back)[2 * n + (i - 2 * n)]);
    }
    assert(hex_text(front + back) =~= hex_text(front) + hex_text(back));
}

/// Bytes that were written out read back as those bytes.
pub proof fn hex_reads_back(data: Seq<u8>)
    ensures
        is_hex_of_width(hex_text(data), data.len()),
        hex_bytes(hex_text(data)) == data,
{
    let digits = hex_text(data);
    assert forall|i: int| 0 <= i < digits.len() implies is_hex_digit(#[trigger] digits[i]) by {
        let byte = data[i / 2];
        assert(byte / 16 < 16 && byte % 16 < 16);
    }
    assert forall|i: int| 0 <= i < data.len() implies hex_bytes(digits)[i] == data[i] by {
        let byte = data[i];
        assert(digits[2 * i] == text::digit_char((byte / 16) as nat));
        assert((2 * i + 1) / 2 == i);
        assert(digits[2 * i + 1] == text::digit_char((byte % 16) as nat));
        assert(hex_digit_value(digits[2 * i]) == byte / 16);
        assert(hex_digit_value(digits[2 * i + 1]) == byte % 16);
    }
    assert(hex_bytes(digits) =~= data);
}

} // verus!
