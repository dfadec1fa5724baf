//! Conversions between UTF-8 byte strings and `String`s.

use vstd::prelude::*;
use vstd::utf8::*;

verus! {

/// `String::from_utf8` from std: documented to succeed exactly when the bytes are
/// well-formed UTF-8, and then to hold the characters that the bytes encode.
#[verifier::external_body]
pub(crate) fn string_from_utf8(bytes: Vec<u8>) -> (r: Option<String>)
    ensures
        r is Some <==> valid_utf8(bytes@),
        r matches Some(s) ==> s@ == decode_utf8(bytes@),
{
    String::from_utf8(bytes).ok()
}

/// The characters that the ASCII bytes `bytes` stand for, one per byte.
pub open spec fn ascii_chars_of(bytes: Seq<u8>) -> Seq<char> {
    Seq::new(bytes.len(), |i: int| bytes[i] as char)
}

/// Turns a sequence of ASCII bytes into the `String` of the same characters.
pub fn ascii_string(bytes: Vec<u8>) -> (s: String)
    requires
        forall|i: int| 0 <= i < bytes@.len() ==> #[trigger] bytes@[i] < 128,
    ensures
        s@ == ascii_chars_of(bytes@),
{
    let ghost chars = ascii_chars_of(bytes@);
    proof {
        assert(is_ascii_chars(chars));
        is_ascii_chars_encode_utf8(chars);
        assert(encode_utf8(chars) =~= bytes@) by {
            assert forall|i: int| 0 <= i < bytes@.len() implies encode_utf8(chars)[i] == bytes@[i] by {
                assert(chars[i] as u8 == encode_utf8(chars)[i]);
                assert(chars[i] == bytes@[i] as char);
                let b: u8 = bytes@[i];
                assert((b as char) as u8 == b);
            }
        }
        encode_utf8_valid_utf8(chars);
        encode_utf8_decode_utf8(chars);
    }
    match string_from_utf8(bytes) {
        Some(s) => s,
        None => {
            proof {
                assert(false);
            }
            String::new()
        },
    }
}

} // verus!
