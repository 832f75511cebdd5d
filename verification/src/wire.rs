//! What the relay puts on the wire, once its JSON has been read.
//!
//! These mirror Nitro's `BroadcastMessage` tree field for field, including the
//! quirks of Go's JSON encoder: `[]byte` comes out as standard base64,
//! `common.Hash` and `common.Address` as `0x` hex, and `*big.Int` as a bare
//! decimal number. How each of those is read is here too; taking the JSON
//! apart is not.

use vstd::prelude::*;
use vstd::string::*;

use crate::hex;
use crate::text;
use crate::types::{Address, B256};

verus! {

/// One broadcast frame.
#[derive(Debug)]
pub struct BroadcastMessage {
    pub messages: Option<Vec<BroadcastFeedMessage>>,
}

/// One sequenced message.
#[derive(Debug)]
pub struct BroadcastFeedMessage {
    pub sequence_number: u64,
    pub message: MessageWithMetadata,
    pub block_hash: Option<B256>,
}

/// The message and how far into the delayed inbox it is.
#[derive(Debug)]
pub struct MessageWithMetadata {
    pub message: L1IncomingMessage,
    pub delayed_messages_read: u64,
}

/// The header and the payload.
#[derive(Debug)]
pub struct L1IncomingMessage {
    pub header: Header,
    /// Standard base64; absent on message kinds that carry no L2 payload.
    pub l2_msg: Option<String>,
}

/// The inbox header.
#[derive(Debug)]
pub struct Header {
    pub kind: u8,
    pub sender: Address,
    pub block_number: u64,
    pub timestamp: u64,
    pub request_id: Option<B256>,
    pub base_fee_l1: u128,
}

/// Whether a text starts with `0x`.
pub open spec fn has_prefix(text: Seq<char>) -> bool {
    text.len() >= 2 && text[0] == '0' && text[1] == 'x'
}

/// What follows an optional `0x`.
pub open spec fn without_prefix(text: Seq<char>) -> Seq<char> {
    if has_prefix(text) {
        text.skip(2)
    } else {
        text
    }
}

/// The bytes that a hex string of the right width stands for. A second prefix
/// is let through.
pub open spec fn fixed_bytes(text: Seq<char>, width: nat) -> Option<Seq<u8>> {
    let digits = hex::without_hex_prefix(without_prefix(text));
    if hex::is_hex_of_width(digits, width) {
        Some(hex::hex_bytes(digits))
    } else {
        None
    }
}

/// The number that a text stands for: hexadecimal behind `0x`, else decimal.
pub open spec fn quantity(text: Seq<char>) -> Option<nat> {
    if has_prefix(text) {
        text::unsigned_value(text.skip(2), 16, u128::MAX as nat)
    } else {
        text::unsigned_value(text, 10, u128::MAX as nat)
    }
}

/// Whether a text starts with `0x`.
fn starts_with_prefix(text: &str) -> (out: bool)
    ensures
        out == has_prefix(text@),
{
    text.unicode_len() >= 2 && text.get_char(0) == '0' && text.get_char(1) == 'x'
}

/// Strip an optional `0x` and decode into a fixed-size array.
fn read_fixed<const N: usize>(text: &str) -> (out: Option<[u8; N]>)
    ensures
        match out {
            Some(bytes) => fixed_bytes(text@, N as nat) == Some(bytes@),
            None => fixed_bytes(text@, N as nat) is None,
        },
{
    if starts_with_prefix(text) {
        let body = text.substring_char(2, text.unicode_len());
        assert(body@ =~= text@.skip(2));
        hex::decode_array::<N>(body)
    } else {
        hex::decode_array::<N>(text)
    }
}

/// Read an address. `None` if it is not a hex string of the right width.
pub fn read_address(text: &str) -> (out: Option<Address>)
    ensures
        match out {
            Some(address) => fixed_bytes(text@, 20) == Some(address@),
            None => fixed_bytes(text@, 20) is None,
        },
{
    match read_fixed::<20>(text) {
        Some(bytes) => Some(Address(bytes)),
        None => None,
    }
}

/// Read a hash. `None` if it is not a hex string of the right width.
pub fn read_hash(text: &str) -> (out: Option<B256>)
    ensures
        match out {
            Some(hash) => fixed_bytes(text@, 32) == Some(hash@),
            None => fixed_bytes(text@, 32) is None,
        },
{
    match read_fixed::<32>(text) {
        Some(bytes) => Some(B256(bytes)),
        None => None,
    }
}

/// Read a number that came as a string.
///
/// Go writes a `*big.Int` as a bare JSON number. A string is accepted too,
/// since the encoding of that type has changed across Nitro versions and
/// nothing here depends on which one arrives.
pub fn read_quantity(text: &str) -> (out: Option<u128>)
    ensures
        match out {
            Some(value) => quantity(text@) == Some(value as nat),
            None => quantity(text@) is None,
        },
{
    if starts_with_prefix(text) {
        let body = text.substring_char(2, text.unicode_len());
        assert(body@ =~= text@.skip(2));
        text::parse_unsigned(body, 16, u128::MAX)
    } else {
        text::parse_unsigned(text, 10, u128::MAX)
    }
}

/// Read a number that came as a signed integer. `None` if it is negative.
pub fn read_signed(value: i64) -> (out: Option<u128>)
    ensures
        match out {
            Some(number) => number as int == value,
            None => value < 0,
        },
{
    if value < 0 {
        None
    } else {
        Some(value as u128)
    }
}

/// An address or a hash reads back from the text it is written as, with `0x` in
/// front or without it.
pub proof fn texts_read_back(
    address: &Address,
    hash: &B256,
    text: &str,
    read: Option<Address>,
    read_too: Option<B256>,
    alternate: bool,
    written: String,
)
    requires
        text@ == written@,
        call_ensures(read_address, (text,), read),
        call_ensures(read_hash, (text,), read_too),
    ensures
        call_ensures(Address::to_string, (address,), written) || call_ensures(
            Address::to_lower_hex,
            (address, alternate),
            written,
        ) ==> (read matches Some(again) && again@ == address@),
        call_ensures(B256::to_string, (hash,), written) || call_ensures(
            B256::to_lower_hex,
            (hash, alternate),
            written,
        ) ==> (read_too matches Some(again) && again@ == hash@),
{
    lemma_fixed_reads_back(address@);
    lemma_fixed_reads_back(hash@);
}

proof fn lemma_fixed_reads_back(data: Seq<u8>)
    ensures
        fixed_bytes("0x"@ + hex::hex_text(data), data.len()) == Some(data),
        fixed_bytes(hex::hex_text(data), data.len()) == Some(data),
{
    reveal_strlit("0x");
    let digits = hex::hex_text(data);
    hex::hex_reads_back(data);
    assert(("0x"@ + digits).skip(2) =~= digits);
    assert forall|i: int| 0 <= i < digits.len() implies #[trigger] digits[i] != 'x' && digits[i]
        != 'X' by {
        assert(hex::is_hex_digit(digits[i]));
    }
    if digits.len() >= 2 {
        assert(digits[1] != 'x' && digits[1] != 'X');
    }
}

/// Whatever reads as an address or a hash is that many bytes in hexadecimal, two
/// digits to a byte, of either case; nothing else does. A prefix may stand in
/// front, `0x` or `0X`, and after `0x` a second one.
pub proof fn only_full_width_hex_is_read(digits: Seq<char>, width: nat)
    requires
        digits.len() < 2 || !(digits[0] == '0' && (digits[1] == 'x' || digits[1] == 'X')),
    ensures
        ({
            let whole = digits.len() == 2 * width && forall|i: int|
                0 <= i < digits.len() ==> hex_worth(#[trigger] digits[i]) < 16;
            forall|front: Seq<char>|
                front == Seq::<char>::empty() || front == seq!['0', 'x'] || front == seq!['0', 'X']
                    || front == seq!['0', 'x', '0', 'x'] || front == seq!['0', 'x', '0', 'X'] ==> {
                    &&& #[trigger] fixed_bytes(front + digits, width) is Some <==> whole
                    &&& fixed_bytes(front + digits, width) matches Some(bytes) ==> bytes.len()
                        == width && forall|i: int|
                        0 <= i < width ==> #[trigger] bytes[i] == 16 * hex_worth(digits[2 * i])
                            + hex_worth(digits[2 * i + 1])
                }
        }),
{
    assert forall|front: Seq<char>|
        front == Seq::<char>::empty() || front == seq!['0', 'x'] || front == seq!['0', 'X']
            || front == seq!['0', 'x', '0', 'x'] || front == seq![
            '0',
            'x',
            '0',
            'X',
        ] implies hex::without_hex_prefix(without_prefix(#[trigger] (front + digits)))
        == digits by {
        let text = front + digits;
        if front == Seq::<char>::empty() {
            assert(text =~= digits);
        } else {
            assert(text.skip(2) =~= front.skip(2) + digits);
            assert(front.len() == 2 ==> text.skip(2) =~= digits);
            if front.len() == 4 {
                let rest = text.skip(2);
                assert(rest[0] == '0' && rest[1] == front[3]);
                assert(rest.skip(2) =~= digits);
            }
        }
    }
    assert forall|i: int| 0 <= i < digits.len() implies (hex_worth(#[trigger] digits[i]) < 16
        <==> hex::is_hex_digit(digits[i])) by {}
    assert forall|front: Seq<char>|
        front == Seq::<char>::empty() || front == seq!['0', 'x'] || front == seq!['0', 'X']
            || front == seq!['0', 'x', '0', 'x'] || front == seq!['0', 'x', '0', 'X'] implies {
        &&& #[trigger] fixed_bytes(front + digits, width) is Some <==> digits.len() == 2 * width
            && forall|i: int| 0 <= i < digits.len() ==> hex_worth(#[trigger] digits[i]) < 16
        &&& fixed_bytes(front + digits, width) matches Some(bytes) ==> bytes.len() == width
            && forall|i: int|
            0 <= i < width ==> #[trigger] bytes[i] == 16 * hex_worth(digits[2 * i]) + hex_worth(
                digits[2 * i + 1],
            )
    } by {
        assert(hex::without_hex_prefix(without_prefix(front + digits)) == digits);
        if hex::is_hex_of_width(digits, width) {
            let bytes = hex::hex_bytes(digits);
            assert forall|i: int| 0 <= i < width implies #[trigger] bytes[i] == 16 * hex_worth(
                digits[2 * i],
            ) + hex_worth(digits[2 * i + 1]) by {
                assert(hex::is_hex_digit(digits[2 * i]) && hex::is_hex_digit(digits[2 * i + 1]));
                assert(hex_worth(digits[2 * i]) < 16 && hex_worth(digits[2 * i + 1]) < 16);
            }
        }
    }
}

/// What a hexadecimal digit is worth, and 16 if it is none.
pub open spec fn hex_worth(c: char) -> int {
    if '0' <= c <= '9' {
        c as int - 48
    } else if 'a' <= c <= 'f' {
        c as int - 87
    } else if 'A' <= c <= 'F' {
        c as int - 55
    } else {
        16
    }
}

/// A number that came as text is hexadecimal behind `0x` and decimal without
/// it, and reads back from what it is written as in either.
pub proof fn quantities_read_back(text: &str, read: Option<u128>, n: u128)
    requires
        call_ensures(read_quantity, (text,), read),
    ensures
        text@ == text::digits(n as nat, 10) ==> read == Some(n),
        text@ == seq!['0', 'x'] + text::digits(n as nat, 16) ==> read == Some(n),
        ({
            let prefixed = text@.len() >= 2 && text@[0] == '0' && text@[1] == 'x';
            let number = if prefixed {
                text::unsigned_value(text@.skip(2), 16, 0xffff_ffff_ffff_ffff_ffff_ffff_ffff_ffff)
            } else {
                text::unsigned_value(text@, 10, 0xffff_ffff_ffff_ffff_ffff_ffff_ffff_ffff)
            };
            match read {
                Some(value) => number == Some(value as nat),
                None => number is None,
            }
        }),
{
    text::digits_read_back(n as nat, 10);
    text::digits_read_back(n as nat, 16);
    text::numbers_are_written_plainly(n as nat, 10);
    let hex = text::digits(n as nat, 16);
    assert((seq!['0', 'x'] + hex).skip(2) =~= hex);
}

/// A signed number reads as itself unless it is negative.
pub proof fn signed_numbers_read_as_themselves(value: i64, read: Option<u128>)
    requires
        call_ensures(read_signed, (value,), read),
    ensures
        value >= 0 ==> (read matches Some(number) && number == value),
        value < 0 ==> read is None,
{
}

} // verus!
