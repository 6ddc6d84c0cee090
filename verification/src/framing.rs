//! The sealed payload: the caller's own name for a memory, and its text.
//!
//! The name goes inside the ciphertext, not beside it. The provider gets a blinded id it cannot
//! reverse; the client recovers the real name on decrypt.

use crate::blind_index::low32;
use crate::bytes::{be32, be32_round_trips, from_be32, push_be32};
use vstd::prelude::*;
use vstd::slice::slice_subrange;
use vstd::utf8::{
    decode_utf8, encode_utf8, encode_utf8_decode_utf8, encode_utf8_valid_utf8, valid_utf8,
};

verus! {

/// A name and a text as one payload: the length of the name in bytes, the name, the text.
pub open spec fn frame_of(item_id: Seq<char>, text: Seq<char>) -> Seq<u8> {
    be32(low32(encode_utf8(item_id).len() as int)) + encode_utf8(item_id) + encode_utf8(text)
}

/// What is read of bytes that are not UTF-8: their text, with a mark in place of what is not.
pub uninterp spec fn lossy_text(bytes: Seq<u8>) -> Seq<char>;

/// The text of some bytes.
pub open spec fn text_of(bytes: Seq<u8>) -> Seq<char> {
    if valid_utf8(bytes) {
        decode_utf8(bytes)
    } else {
        lossy_text(bytes)
    }
}

/// The name and the text of a payload. One that does not parse is a bare text with an empty name
/// rather than an error, so an older item stays readable instead of vanishing.
pub open spec fn unframed(plain: Seq<u8>) -> (Seq<char>, Seq<char>) {
    if plain.len() >= 4 && 4 + from_be32(plain) <= plain.len() {
        let n = from_be32(plain);
        (text_of(plain.subrange(4, 4 + n)), text_of(plain.skip(4 + n)))
    } else {
        (Seq::empty(), text_of(plain))
    }
}

/// `String::from_utf8_lossy` of the standard library. Claims that bytes that are UTF-8 give the
/// text they encode, and that of any others the result depends on the bytes alone.
#[verifier::external_body]
pub(crate) fn lossy(bytes: &[u8]) -> (r: String)
    ensures
        r@ == if valid_utf8(bytes@) {
            decode_utf8(bytes@)
        } else {
            lossy_text(bytes@)
        },
{
    String::from_utf8_lossy(bytes).into_owned()
}

/// Wraps the caller's item name and the text into one payload.
///
/// Length-prefixed: the name is arbitrary user input and a delimiter would need escaping, which is
/// where this sort of thing usually goes wrong.
pub fn frame(item_id: &str, text: &str) -> (r: Vec<u8>)
    ensures
        r@ == frame_of(item_id@, text@),
{
    let id = item_id.as_bytes();
    let mut out: Vec<u8> = Vec::new();
    push_be32(&mut out, (id.len() as u64 % 0x1_0000_0000) as u32);
    out.extend_from_slice(id);
    out.extend_from_slice(text.as_bytes());
    proof {
        assert(out@ =~= frame_of(item_id@, text@));
    }
    out
}

/// Inverse of [`frame`].
pub fn unframe(plain: &[u8]) -> (r: (String, String))
    ensures
        (r.0@, r.1@) == unframed(plain@),
{
    if plain.len() >= 4 {
        let n: u64 = plain[0] as u64 * 0x100_0000 + plain[1] as u64 * 0x1_0000 + plain[2] as u64
            * 0x100 + plain[3] as u64;
        if 4 + n <= plain.len() as u64 {
            let at: usize = 4 + n as usize;
            proof {
                assert(plain@.skip(at as int) =~= plain@.subrange(at as int, plain@.len() as int));
            }
            return (
                lossy(slice_subrange(plain, 4, at)),
                lossy(slice_subrange(plain, at, plain.len())),
            );
        }
    }
    let name = String::new();
    proof {
        assert(name@ =~= Seq::<char>::empty());
    }
    (name, lossy(plain))
}

/// A framed memory gives back its name and its text, for any name whose length can be written in
/// four bytes.
pub proof fn law_frames_round_trip(item_id: Seq<char>, text: Seq<char>)
    requires
        encode_utf8(item_id).len() < 0x1_0000_0000,
    ensures
        unframed(frame_of(item_id, text)) == (item_id, text),
{
    let id = encode_utf8(item_id);
    let plain = frame_of(item_id, text);
    let n = low32(id.len() as int);
    be32_round_trips(n);
    assert(from_be32(plain) == from_be32(be32(n))) by {
        assert(plain[0] == be32(n)[0]);
        assert(plain[1] == be32(n)[1]);
        assert(plain[2] == be32(n)[2]);
        assert(plain[3] == be32(n)[3]);
    }
    assert(plain.subrange(4, 4 + id.len() as int) =~= id);
    assert(plain.skip(4 + id.len() as int) =~= encode_utf8(text));
    encode_utf8_valid_utf8(item_id);
    encode_utf8_valid_utf8(text);
    encode_utf8_decode_utf8(item_id);
    encode_utf8_decode_utf8(text);
}

/// A payload is the length of the name, the name and the text, each whole.
pub proof fn law_frames_spell_their_parts(item_id: Seq<char>, text: Seq<char>)
    requires
        encode_utf8(item_id).len() < 0x1_0000_0000,
    ensures
        ({
            let plain = frame_of(item_id, text);
            let n = encode_utf8(item_id).len() as int;
            &&& from_be32(plain) == n
            &&& plain.subrange(4, 4 + n) == encode_utf8(item_id)
            &&& plain.skip(4 + n) == encode_utf8(text)
        }),
{
    let plain = frame_of(item_id, text);
    let n = low32(encode_utf8(item_id).len() as int);
    be32_round_trips(n);
    assert(from_be32(plain) == from_be32(be32(n)));
    assert(plain.subrange(4, 4 + n) =~= encode_utf8(item_id));
    assert(plain.skip(4 + n) =~= encode_utf8(text));
}

/// A payload too short for a length, or shorter than its length says, is a bare text with an empty
/// name: a text that was never framed reads as itself wherever it cannot be taken for a frame.
pub proof fn law_bare_texts_read_as_themselves(text: Seq<char>)
    requires
        encode_utf8(text).len() < 4 || 4 + from_be32(encode_utf8(text)) > encode_utf8(text).len(),
    ensures
        unframed(encode_utf8(text)) == (Seq::<char>::empty(), text),
{
    encode_utf8_valid_utf8(text);
    encode_utf8_decode_utf8(text);
}

} // verus!
