//! Hexadecimal text for digests.
//!
//! Target digests arrive as hexadecimal lines; decoding them is trusted to
//! the `hex` crate against an exact specification, and the lowercase
//! encoding used for reporting is implemented and verified here.

use vstd::prelude::*;

verus! {

/// `b` is the ASCII code of a hexadecimal digit, either case.
pub open spec fn is_hex_digit(b: u8) -> bool {
    (48 <= b <= 57) || (65 <= b <= 70) || (97 <= b <= 102)
}

/// The numeric value of the hexadecimal digit with ASCII code `b`.
pub open spec fn hex_digit_val(b: u8) -> u8
    recommends
        is_hex_digit(b),
{
    if 48 <= b <= 57 {
        (b - 48) as u8
    } else if 65 <= b <= 70 {
        (b - 55) as u8
    } else {
        (b - 87) as u8
    }
}

/// `s` is a well-formed hexadecimal byte string: even length, hex digits only.
pub open spec fn valid_hex(s: Seq<u8>) -> bool {
    s.len() % 2 == 0 && (forall|i: int| 0 <= i < s.len() ==> is_hex_digit(#[trigger] s[i]))
}

/// The bytes denoted by the hexadecimal byte string `s`.
pub open spec fn hex_decode_spec(s: Seq<u8>) -> Seq<u8>
    recommends
        valid_hex(s),
{
    Seq::new((s.len() / 2) as nat, |i: int| (hex_digit_val(s[2 * i]) * 16 + hex_digit_val(s[2 * i + 1])) as u8)
}

/// The ASCII code of the lowercase hexadecimal digit for the value `n`.
pub open spec fn hex_digit_ascii(n: u8) -> u8
    recommends
        n < 16,
{
    if n < 10 {
        (48 + n) as u8
    } else {
        (87 + n) as u8
    }
}

/// The lowercase hexadecimal byte string denoting the bytes `bs`.
pub open spec fn hex_encode_spec(bs: Seq<u8>) -> Seq<u8> {
    Seq::new(2 * bs.len(), |i: int| if i % 2 == 0 {
            hex_digit_ascii(bs[i / 2] / 16)
        } else {
            hex_digit_ascii(bs[i / 2] % 16)
        })
}

/// Relies on `hex::decode`: it succeeds exactly on an even-length string of
/// ASCII hexadecimal digits (either case), and then returns one byte per
/// digit pair, high digit first.
#[verifier::external_body]
pub fn hex_decode(data: &Vec<u8>) -> (r: Option<Vec<u8>>)
    ensures
        r is Some <==> valid_hex(data@),
        r is Some ==> r.unwrap()@ == hex_decode_spec(data@),
{
    hex::decode(data.as_slice()).ok()
}

/// The lowercase hexadecimal rendering of `bs`, two ASCII digits per byte.
pub fn encode_hex(bs: &Vec<u8>) -> (r: Vec<u8>)
    ensures
        r@ == hex_encode_spec(bs@),
{
    let mut r: Vec<u8> = Vec::new();
    let mut i: usize = 0;
    while i < bs.len()
        invariant
            i <= bs@.len(),
            r@.len() == 2 * i,
            forall|k: int| 0 <= k < r@.len() ==> r@[k] == hex_encode_spec(bs@)[k],
        decreases bs@.len() - i,
    {
        let b = bs[i];
        let hi = b / 16;
        let lo = b % 16;
        let hi_c = if hi < 10 {
            48 + hi
        } else {
            87 + hi
        };
        let lo_c = if lo < 10 {
            48 + lo
        } else {
            87 + lo
        };
        r.push(hi_c);
        r.push(lo_c);
        i += 1;
    }
    proof {
        assert(r@ =~= hex_encode_spec(bs@));
    }
    r
}

/// Round trip: decoding the lowercase rendering of any bytes gives them back.
pub proof fn lemma_hex_round_trip(bs: Seq<u8>)
    ensures
        valid_hex(hex_encode_spec(bs)),
        hex_decode_spec(hex_encode_spec(bs)) == bs,
{
    let enc = hex_encode_spec(bs);
    assert forall|i: int| 0 <= i < enc.len() implies is_hex_digit(#[trigger] enc[i]) by {
        assert(0 <= i / 2 < bs.len());
    }
    assert forall|i: int| 0 <= i < bs.len() implies hex_decode_spec(enc)[i] == bs[i] by {
        assert(enc[2 * i] == hex_digit_ascii(bs[i] / 16));
        assert(enc[2 * i + 1] == hex_digit_ascii(bs[i] % 16));
    }
    assert(hex_decode_spec(enc) =~= bs);
}

} // verus!
