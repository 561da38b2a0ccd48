//! Text handling for frame payloads: checked UTF-8 decoding, and the link
//! between the delimiter as a character and the delimiter as a wire byte.

use vstd::prelude::*;
use vstd::utf8::{
    char_is_scalar, char_u32_cast, encode_scalar, encode_utf8, has_width_1_encoding,
    has_width_2_encoding, has_width_3_encoding, is_scalar, valid_utf8,
};

verus! {

/// The single byte that terminates a delimiter-framed message on the wire:
/// the UTF-8 encoding of `'\n'`.
pub const DELIMITER: u8 = 10;

/// Relies on `core::str::from_utf8`: it returns `Ok` exactly when the bytes
/// are a valid UTF-8 encoding, and the string it returns is the one those
/// bytes encode.
#[verifier::external_body]
pub(crate) fn bytes_to_string(v: &[u8]) -> (r: Option<String>)
    ensures
        r is Some <==> valid_utf8(v@),
        r matches Some(s) ==> encode_utf8(s@) == v@,
{
    match core::str::from_utf8(v) {
        Ok(s) => Some(s.to_owned()),
        Err(_) => None,
    }
}

/// The description a payload that is not valid UTF-8 is reported with.
pub(crate) fn invalid_text() -> (s: String)
    ensures
        s@ == "invalid string"@,
{
    let text: &str = "invalid string";
    text.to_owned()
}

/// The description a frame cut off by a mid-frame disconnect is reported
/// with.
pub(crate) fn truncated_text() -> (s: String)
    ensures
        s@ == "truncated frame"@,
{
    let text: &str = "truncated frame";
    text.to_owned()
}

/// An element occurs in a concatenation exactly when it occurs in one of
/// the parts.
proof fn lemma_contains_add<A>(a: Seq<A>, b: Seq<A>, x: A)
    ensures
        (a + b).contains(x) <==> a.contains(x) || b.contains(x),
{
    if a.contains(x) {
        let i = choose|i: int| 0 <= i < a.len() && a[i] == x;
        assert((a + b)[i] == x);
    }
    if b.contains(x) {
        let i = choose|i: int| 0 <= i < b.len() && b[i] == x;
        assert((a + b)[a.len() + i] == x);
    }
    if (a + b).contains(x) {
        let i = choose|i: int| 0 <= i < (a + b).len() && (a + b)[i] == x;
        if i < a.len() {
            assert(a[i] == x);
        } else {
            assert(b[i - a.len()] == x);
        }
    }
}

/// The encoding of one scalar contains the delimiter byte exactly when the
/// scalar is the delimiter itself.
proof fn lemma_encode_scalar_delimiter(u: u32)
    requires
        is_scalar(u),
    ensures
        encode_scalar(u).contains(DELIMITER) <==> u == 10,
{
    let e = encode_scalar(u);
    if has_width_1_encoding(u) {
        assert(e[0] == (u & 0x7F) as u8);
        assert(u <= 0x7f ==> (((u & 0x7F) as u8 == 10) <==> u == 10)) by (bit_vector);
        if u == 10 {
            assert(e.contains(DELIMITER));
        } else {
            assert(forall|i: int| 0 <= i < e.len() ==> e[i] != DELIMITER);
        }
    } else {
        assert((0x80 | (u & 0x3F) as u8) != 10) by (bit_vector);
        assert((0x80 | ((u >> 6) & 0x3F) as u8) != 10) by (bit_vector);
        assert((0x80 | ((u >> 12) & 0x3F) as u8) != 10) by (bit_vector);
        if has_width_2_encoding(u) {
            assert((0xC0 | ((u >> 6) & 0x1F) as u8) != 10) by (bit_vector);
        } else if has_width_3_encoding(u) {
            assert((0xE0 | ((u >> 12) & 0x0F) as u8) != 10) by (bit_vector);
        } else {
            assert((0xF0 | ((u >> 18) & 0x7) as u8) != 10) by (bit_vector);
        }
        assert(forall|i: int| 0 <= i < e.len() ==> e[i] != DELIMITER);
    }
}

/// The UTF-8 encoding of a character sequence contains the delimiter byte
/// exactly when the sequence contains the delimiter character.
pub proof fn lemma_delimiter_in_encoding(s: Seq<char>)
    ensures
        encode_utf8(s).contains(DELIMITER) <==> s.contains('\n'),
    decreases s.len(),
{
    if s.len() == 0 {
    } else {
        let c = s[0];
        char_is_scalar(c);
        lemma_encode_scalar_delimiter(c as u32);
        lemma_delimiter_in_encoding(s.drop_first());
        lemma_contains_add(encode_scalar(c as u32), encode_utf8(s.drop_first()), DELIMITER);
        char_u32_cast(c, c as u32);
        assert(c as u32 == 10 <==> c == '\n') by {
            char_u32_cast('\n', '\n' as u32);
        }
        assert(s.contains('\n') <==> c == '\n' || s.drop_first().contains('\n')) by {
            if s.contains('\n') {
                let i = choose|i: int| 0 <= i < s.len() && s[i] == '\n';
                if i > 0 {
                    assert(s.drop_first()[i - 1] == '\n');
                }
            }
            if s.drop_first().contains('\n') {
                let i = choose|i: int| 0 <= i < s.drop_first().len() && s.drop_first()[i] == '\n';
                assert(s[i + 1] == '\n');
            }
        }
    }
}

/// Whether the string contains the delimiter character, decided by scanning
/// its UTF-8 bytes for the delimiter byte.
pub fn contains_delimiter(s: &str) -> (r: bool)
    ensures
        r == s@.contains('\n'),
{
    let bytes = s.as_bytes();
    proof {
        lemma_delimiter_in_encoding(s@);
    }
    let mut i: usize = 0;
    while i < bytes.len()
        invariant
            i <= bytes@.len(),
            bytes@ == encode_utf8(s@),
            forall|j: int| 0 <= j < i ==> bytes@[j] != DELIMITER,
        decreases bytes@.len() - i,
    {
        if bytes[i] == DELIMITER {
            proof {
                assert(bytes@[i as int] == DELIMITER);
                assert(bytes@.contains(DELIMITER));
                lemma_delimiter_in_encoding(s@);
            }
            return true;
        }
        i = i + 1;
    }
    assert(!bytes@.contains(DELIMITER));
    false
}

} // verus!
