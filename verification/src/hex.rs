//! Hexadecimal text, and addresses written in it.
use crate::crypto::keccak::keccak256_digest;
use vstd::prelude::*;
use vstd::utf8::encode_utf8;

verus! {

/// The value of a hexadecimal digit, lower or upper case.
pub open spec fn hex_digit(c: u8) -> Option<u8> {
    if 0x30 <= c <= 0x39 {
        Some((c - 0x30) as u8)
    } else if 0x61 <= c <= 0x66 {
        Some((c - 0x57) as u8)
    } else if 0x41 <= c <= 0x46 {
        Some((c - 0x37) as u8)
    } else {
        None
    }
}

/// The text without the `0x` or `0X` that it may start with.
pub open spec fn unprefixed(text: Seq<u8>) -> Seq<u8> {
    if text.len() >= 2 && text[0] == 0x30 && (text[1] == 0x78 || text[1] == 0x58) {
        text.skip(2)
    } else {
        text
    }
}

/// The bytes that the text stands for, two digits each, where it is such a text.
pub open spec fn decoded_hex(text: Seq<u8>) -> Option<Seq<u8>> {
    let digits = unprefixed(text);
    if digits.len() % 2 == 0 && forall|i: int|
        0 <= i < digits.len() ==> hex_digit(#[trigger] digits[i]) is Some {
        Some(
            Seq::new(
                digits.len() / 2,
                |i: int|
                    (16 * hex_digit(digits[2 * i])->Some_0 + hex_digit(
                        digits[2 * i + 1],
                    )->Some_0) as u8,
            ),
        )
    } else {
        None
    }
}

/// The address that a text stands for.
pub open spec fn address_of(text: Seq<char>) -> Option<Seq<u8>> {
    match decoded_hex(encode_utf8(text)) {
        Some(bytes) => if bytes.len() == 20 {
            Some(bytes)
        } else {
            None
        },
        None => None,
    }
}

/// The error of a text that is not hexadecimal.
#[verifier::external_type_specification]
#[verifier::external_body]
pub struct ExFromHexError(revm_primitives::hex::FromHexError);

/// Calls `revm_primitives::hex::decode`: the bytes that the text stands for, or an error where the
/// text has an odd length or holds something else than digits.
#[verifier::external_body]
pub(crate) fn decode(text: &[u8]) -> (r: Result<Vec<u8>, revm_primitives::hex::FromHexError>)
    ensures
        match r {
            Ok(bytes) => decoded_hex(text@) == Some(bytes@),
            Err(_) => decoded_hex(text@) is None,
        },
{
    revm_primitives::hex::decode(text)
}

/// Calls `alloy_primitives::Address::from_str`: the address that the text stands for, or an error
/// where it is not the text of exactly 20 bytes.
#[verifier::external_body]
pub(crate) fn parse_address(text: &str) -> (r: Result<
    [u8; 20],
    revm_primitives::hex::FromHexError,
>)
    ensures
        match r {
            Ok(address) => address_of(text@) == Some(address@),
            Err(_) => address_of(text@) is None,
        },
{
    text.parse::<alloy_primitives::Address>().map(|address| address.into_array())
}

/// The `i`-th of the digits that the bytes have, as a number.
pub open spec fn digit_at(bytes: Seq<u8>, i: int) -> u8 {
    if i % 2 == 0 {
        (bytes[i / 2] / 16) as u8
    } else {
        (bytes[i / 2] % 16) as u8
    }
}

/// The digits of the bytes as text, letters in lower case.
pub open spec fn lower_hex(bytes: Seq<u8>) -> Seq<u8> {
    Seq::new(
        2 * bytes.len(),
        |i: int|
            {
                let digit = digit_at(bytes, i);
                if digit < 10 {
                    (0x30 + digit) as u8
                } else {
                    (0x57 + digit) as u8
                }
            },
    )
}

/// The text of an address with a checksum: a letter stands in upper case where the digit of the
/// hash of the lower case text at its place is 8 or more.
pub open spec fn checksum_text(address: Seq<u8>) -> Seq<char> {
    let hash = keccak256_digest(lower_hex(address));
    seq!['0', 'x'] + Seq::new(
        2 * address.len(),
        |i: int|
            {
                let digit = digit_at(address, i);
                if digit < 10 {
                    (0x30 + digit) as char
                } else if digit_at(hash, i) >= 8 {
                    (0x37 + digit) as char
                } else {
                    (0x57 + digit) as char
                }
            },
    )
}

/// Calls `alloy_primitives::Address::to_string`: the text of the address with its checksum.
#[verifier::external_body]
pub(crate) fn address_text(address: &[u8; 20]) -> (r: String)
    ensures
        r@ == checksum_text(address@),
{
    alloy_primitives::Address::new(*address).to_string()
}

/// Parsing the text of an address gives the address.
pub proof fn law_checksum_text_is_read_back(address: Seq<u8>)
    requires
        address.len() == 20,
    ensures
        address_of(checksum_text(address)) == Some(address),
{
    let text = checksum_text(address);
    let bytes = encode_utf8(text);
    assert(vstd::utf8::is_ascii_chars(text));
    vstd::utf8::is_ascii_chars_encode_utf8(text);
    let digits = unprefixed(bytes);
    assert forall|i: int| 0 <= i < digits.len() implies hex_digit(#[trigger] digits[i]) == Some(
        digit_at(address, i),
    ) by {
        assert(digits[i] == bytes[i + 2]);
    }
    let decoded = decoded_hex(bytes)->Some_0;
    assert forall|i: int| 0 <= i < 20 implies #[trigger] decoded[i] == address[i] by {
        assert(hex_digit(digits[2 * i]) == Some(digit_at(address, 2 * i)));
        assert(hex_digit(digits[2 * i + 1]) == Some(digit_at(address, 2 * i + 1)));
        assert((2 * i) / 2 == i);
        assert((2 * i + 1) / 2 == i);
    }
    assert(decoded =~= address);
}

} // verus!
