//! Lowercase hexadecimal encoding of digests, as used in serialized proofs.

use vstd::prelude::*;

verus! {

/// The lowercase hexadecimal digit for a value below 16.
pub open spec fn spec_hex_digit(n: u8) -> char
    recommends
        n < 16,
{
    seq!['0', '1', '2', '3', '4', '5', '6', '7', '8', '9', 'a', 'b', 'c', 'd', 'e', 'f'][n as int]
}

/// The lowercase hexadecimal encoding of a byte sequence: two digits per
/// byte, high nibble first.
pub open spec fn spec_hex(bytes: Seq<u8>) -> Seq<char> {
    Seq::new(
        bytes.len() * 2,
        |i: int| if i % 2 == 0 {
            spec_hex_digit(bytes[i / 2] / 16)
        } else {
            spec_hex_digit(bytes[i / 2] % 16)
        },
    )
}

/// Relies on `hex::encode`: the result is the lowercase hexadecimal encoding
/// of the input, two digits per byte in input order, high nibble first, from
/// the digit table `0123456789abcdef`.
#[verifier::external_body]
pub(crate) fn hex_encode(bytes: &[u8]) -> (r: String)
    ensures
        r@ == spec_hex(bytes@),
{
    hex::encode(bytes)
}

} // verus!
