//! Hex text for the CSRF header, through the `hex` crate behind exact
//! contracts.

use vstd::prelude::*;

verus! {

/// The value of a hex digit character in either case, or -1.
pub open spec fn hex_char_val(c: char) -> int {
    let u = c as int;
    if 48 <= u <= 57 {
        u - 48
    } else if 97 <= u <= 102 {
        (u - 97) + 10
    } else if 65 <= u <= 70 {
        (u - 65) + 10
    } else {
        -1
    }
}

/// Holds when `s` is a well-formed hex string: even length, hex digits of
/// either case throughout.
pub open spec fn valid_hex(s: Seq<char>) -> bool {
    &&& s.len() % 2 == 0
    &&& forall|i: int| 0 <= i < s.len() ==> hex_char_val(#[trigger] s[i]) >= 0
}

/// The bytes a well-formed hex string denotes, one per digit pair.
pub open spec fn hex_bytes_of(s: Seq<char>) -> Seq<u8> {
    Seq::new((s.len() / 2) as nat, |i: int| (hex_char_val(s[2 * i]) * 16 + hex_char_val(s[2 * i + 1])) as u8)
}

/// The lowercase hex rendering of bytes, two digits per byte.
pub open spec fn hex_lower_of(b: Seq<u8>) -> Seq<char> {
    Seq::new((b.len() * 2) as nat, |i: int| if i % 2 == 0 {
        crate::jsontext::hex_digit_char(b[i / 2] as int / 16)
    } else {
        crate::jsontext::hex_digit_char(b[i / 2] as int % 16)
    })
}

/// Relies on `hex::encode`: renders each byte as two lowercase hex
/// digits, in order.
#[verifier::external_body]
pub fn hex_encode(b: &Vec<u8>) -> (r: String)
    ensures
        r@ == hex_lower_of(b@),
{
    hex::encode(b)
}

/// Relies on `hex::decode`: succeeds exactly on even-length strings of
/// hex digits of either case, and returns one byte per digit pair.
#[verifier::external_body]
pub fn hex_decode(s: &str) -> (r: Option<Vec<u8>>)
    ensures
        match r {
            Some(v) => valid_hex(s@) && v@ == hex_bytes_of(s@),
            None => !valid_hex(s@),
        },
{
    match hex::decode(s) {
        Ok(v) => Some(v),
        Err(_) => None,
    }
}

} // verus!
