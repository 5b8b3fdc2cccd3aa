//! Text decoding: byte strings projected into UTF-8 `String` fields.

use vstd::prelude::*;
use vstd::utf8::{valid_utf8, decode_utf8, encode_utf8, is_ascii_chars};

verus! {

/// ASCII bytes are valid UTF-8 and decode to their own code points.
pub proof fn lemma_ascii_bytes_decode(bytes: Seq<u8>)
    requires
        forall|i: int| 0 <= i < bytes.len() ==> (#[trigger] bytes[i]) < 128,
    ensures
        valid_utf8(bytes),
        decode_utf8(bytes) == bytes.map_values(|b: u8| b as char),
{
    let chars = bytes.map_values(|b: u8| b as char);
    assert(is_ascii_chars(chars)) by {
        assert forall|i: int| 0 <= i < chars.len() implies ((#[trigger] chars[i]) as nat) < 128 by {
            assert(bytes[i] < 128);
        }
    }
    vstd::utf8::is_ascii_chars_encode_utf8(chars);
    assert(encode_utf8(chars) =~= bytes);
    vstd::utf8::encode_utf8_valid_utf8(chars);
    vstd::utf8::encode_utf8_decode_utf8(chars);
}

/// Turns ASCII bytes into the string of the same code points.
pub fn ascii_to_string(v: &[u8]) -> (r: String)
    requires
        forall|i: int| 0 <= i < v@.len() ==> (#[trigger] v@[i]) < 128,
    ensures
        r@ == v@.map_values(|b: u8| b as char),
{
    proof {
        lemma_ascii_bytes_decode(v@);
    }
    match bytes_to_string(v) {
        Some(s) => s,
        None => {
            proof {
                assert(false);
            }
            String::new()
        },
    }
}

/// Relies on `str::from_utf8` (with `to_owned`): it succeeds exactly when
/// the bytes are valid UTF-8, and then returns their decoding.
#[verifier::external_body]
pub(crate) fn bytes_to_string(v: &[u8]) -> (r: Option<String>)
    ensures
        r is Some <==> valid_utf8(v@),
        r matches Some(s) ==> s@ == decode_utf8(v@),
{
    match core::str::from_utf8(v) {
        Ok(s) => Some(s.to_owned()),
        Err(_) => None,
    }
}

} // verus!
