//! Hexadecimal text for identifiers, as used in directory names and metadata.
use vstd::prelude::*;

verus! {

/// The lowercase hexadecimal digit for a value below 16.
pub open spec fn hex_digit(n: u8) -> char {
    if n < 10 {
        ((n + 48) as u8) as char
    } else {
        ((n + 87) as u8) as char
    }
}

/// Whether `c` is a hexadecimal digit, in either case.
pub open spec fn is_hex_char(c: char) -> bool {
    ('0' <= c && c <= '9') || ('a' <= c && c <= 'f') || ('A' <= c && c <= 'F')
}

/// The value of a hexadecimal digit.
pub open spec fn hex_value(c: char) -> u8 {
    if '0' <= c && c <= '9' {
        ((c as u32) - 48) as u8
    } else if 'a' <= c && c <= 'f' {
        ((c as u32) - 87) as u8
    } else {
        ((c as u32) - 55) as u8
    }
}

/// Lowercase hexadecimal text of a byte string, two digits per byte, high nibble first.
pub open spec fn hex_of(b: Seq<u8>) -> Seq<char> {
    Seq::new(
        2 * b.len(),
        |i: int|
            if i % 2 == 0 {
                hex_digit(b[i / 2] / 16)
            } else {
                hex_digit(b[i / 2] % 16)
            },
    )
}

/// Whether `s` is hexadecimal text: an even number of hexadecimal digits.
pub open spec fn is_hex_text(s: Seq<char>) -> bool {
    s.len() % 2 == 0 && forall|i: int| 0 <= i < s.len() ==> is_hex_char(#[trigger] s[i])
}

/// The bytes that hexadecimal text stands for.
pub open spec fn unhex(s: Seq<char>) -> Seq<u8> {
    Seq::new(
        s.len() / 2,
        |i: int| (hex_value(s[2 * i]) * 16 + hex_value(s[2 * i + 1])) as u8,
    )
}

/// The identifier that hexadecimal text names: its first eight bytes.
pub open spec fn identifier_of(s: Seq<char>) -> Option<Seq<u8>> {
    if is_hex_text(s) && s.len() >= 16 {
        Some(unhex(s).subrange(0, 8))
    } else {
        None
    }
}

/// Relies on hex::encode: lowercase digits, two per byte, high nibble first.
#[verifier::external_body]
pub(crate) fn encode_hex(b: &[u8]) -> (r: String)
    ensures
        r@ == hex_of(b@),
{
    hex::encode(b)
}

/// Relies on hex::decode: accepts exactly an even number of digits of either
/// case, and yields one byte per pair of digits.
#[verifier::external_body]
fn decode_hex(s: &str) -> (r: Option<Vec<u8>>)
    ensures
        r is Some <==> is_hex_text(s@),
        r is Some ==> r->0@ == unhex(s@),
{
    hex::decode(s).ok()
}

/// Hexadecimal text of an identifier.
pub fn into_hex(identifier: [u8; 8]) -> (r: String)
    ensures
        r@ == hex_of(identifier@),
{
    encode_hex(identifier.as_slice())
}

/// Reads an identifier back from hexadecimal text: the first eight bytes it
/// stands for, or `None` where the text is not hexadecimal or too short.
pub fn from_hex(text: &str) -> (r: Option<[u8; 8]>)
    ensures
        match identifier_of(text@) {
            Some(id) => r is Some && r->0@ == id,
            None => r is None,
        },
{
    match decode_hex(text) {
        None => None,
        Some(v) => {
            if v.len() < 8 {
                None
            } else {
                let id: [u8; 8] = [v[0], v[1], v[2], v[3], v[4], v[5], v[6], v[7]];
                assert(id@ =~= v@.subrange(0, 8));
                Some(id)
            }
        },
    }
}

proof fn lemma_hex_digit(n: u8)
    requires
        n < 16,
    ensures
        is_hex_char(hex_digit(n)),
        hex_value(hex_digit(n)) == n,
{
}

/// Hexadecimal text names back the identifier it was made from.
pub proof fn lemma_hex_round_trip(b: Seq<u8>)
    requires
        b.len() == 8,
    ensures
        identifier_of(hex_of(b)) == Some(b),
{
    let h = hex_of(b);
    assert forall|i: int| 0 <= i < h.len() implies is_hex_char(#[trigger] h[i]) by {
        lemma_hex_digit(b[i / 2] / 16);
        lemma_hex_digit(b[i / 2] % 16);
    }
    assert forall|i: int| 0 <= i < 8 implies #[trigger] unhex(h)[i] == b[i] by {
        assert(h[2 * i] == hex_digit(b[i] / 16));
        assert(h[2 * i + 1] == hex_digit(b[i] % 16));
        lemma_hex_digit(b[i] / 16);
        lemma_hex_digit(b[i] % 16);
        assert((b[i] / 16) * 16 + b[i] % 16 == b[i]);
    }
    assert(unhex(h).subrange(0, 8) =~= b);
}

} // verus!
