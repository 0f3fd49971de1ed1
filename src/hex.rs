use vstd::prelude::*;

verus! {

/// The lowercase hex digit for a value below 16.
pub open spec fn hex_digit(v: int) -> char {
    seq!['0', '1', '2', '3', '4', '5', '6', '7', '8', '9', 'a', 'b', 'c', 'd', 'e', 'f'][v]
}

/// Two lowercase hex digits for each byte, high nibble first.
pub open spec fn hex_text(b: Seq<u8>) -> Seq<char> {
    Seq::new(
        2 * b.len(),
        |i: int|
            if i % 2 == 0 {
                hex_digit(b[i / 2] as int / 16)
            } else {
                hex_digit(b[i / 2] as int % 16)
            },
    )
}

/// The ASCII bytes of `hex_text(b)`.
pub open spec fn hex_bytes(b: Seq<u8>) -> Seq<u8> {
    Seq::new(2 * b.len(), |i: int| hex_text(b)[i] as u8)
}

/// A byte that is a hex digit of either case.
pub open spec fn is_hex_byte(c: u8) -> bool {
    (48 <= c <= 57) || (65 <= c <= 70) || (97 <= c <= 102)
}

/// The value of a hex digit byte.
pub open spec fn hex_value(c: u8) -> int {
    if c <= 57 {
        c - 48
    } else if c <= 70 {
        c - 55
    } else {
        c - 87
    }
}

/// Text that decodes as hex: an even number of hex digits.
pub open spec fn hex_decodable(s: Seq<u8>) -> bool {
    &&& s.len() % 2 == 0
    &&& forall|i: int| 0 <= i < s.len() ==> is_hex_byte(#[trigger] s[i])
}

/// The bytes that hex text stands for, one for each pair of digits.
pub open spec fn hex_decoded(s: Seq<u8>) -> Seq<u8> {
    Seq::new(
        s.len() / 2,
        |i: int| (hex_value(s[2 * i]) * 16 + hex_value(s[2 * i + 1])) as u8,
    )
}

/// Relies on `hex::encode`: two lowercase digits for each byte, high nibble
/// first.
#[verifier::external_body]
pub(crate) fn encode_hex(b: &[u8]) -> (r: String)
    ensures
        r@ == hex_text(b@),
{
    hex::encode(b)
}

/// Relies on `hex::decode`: it accepts exactly the texts made of an even
/// number of hex digits of either case, and yields one byte for each pair.
#[verifier::external_body]
pub(crate) fn decode_hex(s: &[u8]) -> (r: Option<Vec<u8>>)
    ensures
        r is Some <==> hex_decodable(s@),
        r matches Some(v) ==> v@ == hex_decoded(s@),
{
    hex::decode(s).ok()
}

proof fn lemma_hex_text_ascii(b: Seq<u8>)
    ensures
        vstd::utf8::is_ascii_chars(hex_text(b)),
{
    assert forall|i: int| 0 <= i < hex_text(b).len() implies '\0' <= #[trigger] hex_text(b)[i]
        <= '\u{7f}' by {
        let v: int = if i % 2 == 0 {
            b[i / 2] as int / 16
        } else {
            b[i / 2] as int % 16
        };
        assert(0 <= v < 16);
        assert(hex_text(b)[i] == hex_digit(v));
    }
}

/// The ASCII bytes of `b` in lowercase hex.
pub fn hex_ascii(b: &[u8]) -> (r: Vec<u8>)
    ensures
        r@ == hex_bytes(b@),
{
    let s = encode_hex(b);
    let t = s.as_str();
    proof {
        lemma_hex_text_ascii(b@);
        vstd::string::is_ascii_spec_bytes(t);
    }
    let bs = t.as_bytes();
    let r = vstd::slice::slice_to_vec(bs);
    assert(r@ =~= hex_bytes(b@));
    r
}

} // verus!
