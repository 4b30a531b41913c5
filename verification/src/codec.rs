//! The keyed codec: keystream XOR, then bidirectional diffusion, then base-7
//! packing into the alphabet `F U C K Y O u`; decoding runs the stages
//! backwards.

use vstd::prelude::*;
use vstd::utf8::*;
use crate::base7::{
    digit_spec, pack_spec, unpack_spec, pack_base7, unpack_base7, value_of,
    lemma_pack_len, lemma_pack_unpack, lemma_unpack_pack, lemma_pack_digits, lemma_unpack_ok_digits,
};
use crate::diffusion::{
    diffuse, diffuse_spec, undiffuse, undiffuse_spec, lemma_diffuse_len, lemma_diffuse_undiffuse,
    lemma_undiffuse_diffuse,
};
use crate::keystream::{apply_keystream, keystream_xor, lemma_keystream_involution};
use crate::text::{chars_of, lemma_encode_utf8_empty, string_from_utf8};

pub use crate::base7::CodecError;

verus! {

/// The encoded form of text `s` under key `k`.
pub open spec fn encode_spec(s: Seq<char>, k: Seq<char>) -> Seq<char> {
    pack_spec(diffuse_spec(keystream_xor(encode_utf8(s), k)))
}

/// What decoding symbol string `t` under key `k` gives.
pub open spec fn decode_spec(t: Seq<char>, k: Seq<char>) -> Result<Seq<char>, CodecError> {
    match unpack_spec(t) {
        Err(e) => Err(e),
        Ok(b) => {
            let plain = keystream_xor(undiffuse_spec(b), k);
            if valid_utf8(plain) {
                Ok(decode_utf8(plain))
            } else {
                Err(CodecError::NotUtf8)
            }
        },
    }
}

/// Whether `t` is non-empty, a whole number of symbol groups, made only of
/// alphabet symbols, and decodes under `k`.
pub open spec fn looks_encoded_spec(t: Seq<char>, k: Seq<char>) -> bool {
    &&& t.len() > 0
    &&& t.len() % 3 == 0
    &&& forall|i: int| 0 <= i < t.len() ==> (#[trigger] digit_spec(t[i])) is Some
    &&& decode_spec(t, k) is Ok
}

/// Encodes `input` under `key` into symbols of the alphabet.
pub fn encode(input: &str, key: &str) -> (out: String)
    ensures
        out@ == encode_spec(input@, key@),
{
    let utf8 = input.as_bytes();
    let mut bytes: Vec<u8> = Vec::new();
    bytes.extend_from_slice(utf8);
    let ghost b0 = bytes@;
    assert(b0 =~= encode_utf8(input@));
    apply_keystream(bytes.as_mut_slice(), key);
    let ghost b1 = bytes@;
    assert(b1 == keystream_xor(b0, key@));
    diffuse(bytes.as_mut_slice());
    assert(bytes@ == diffuse_spec(b1));
    pack_base7(bytes.as_slice())
}

/// Decodes `input` under `key`, or says why it cannot.
pub fn decode(input: &str, key: &str) -> (r: Result<String, CodecError>)
    ensures
        r matches Ok(s) ==> decode_spec(input@, key@) == Ok::<Seq<char>, CodecError>(s@),
        r matches Err(e) ==> decode_spec(input@, key@) == Err::<Seq<char>, CodecError>(e),
{
    let mut bytes = match unpack_base7(input) {
        Ok(b) => b,
        Err(e) => return Err(e),
    };
    undiffuse(bytes.as_mut_slice());
    apply_keystream(bytes.as_mut_slice(), key);
    match string_from_utf8(bytes) {
        Ok(s) => Ok(s),
        Err(_) => Err(CodecError::NotUtf8),
    }
}

/// Whether `input` is plausibly an encoding made under `key`: non-empty, a
/// whole number of symbol groups, only alphabet symbols, and it decodes.
pub fn looks_encoded(input: &str, key: &str) -> (r: bool)
    ensures
        r == looks_encoded_spec(input@, key@),
{
    let chars = chars_of(input);
    let n = chars.len();
    if n == 0 || n % 3 != 0 {
        return false;
    }
    let mut i: usize = 0;
    while i < n
        invariant
            n == chars@.len(),
            chars@ == input@,
            i <= n,
            forall|j: int| 0 <= j < i ==> (#[trigger] digit_spec(chars@[j])) is Some,
        decreases n - i,
    {
        if value_of(chars[i]).is_none() {
            return false;
        }
        i = i + 1;
    }
    decode(input, key).is_ok()
}

/// Decoding an encoding under the same key gives back the text, for every
/// text and every key.
pub proof fn lemma_decode_encode(s: Seq<char>, k: Seq<char>)
    ensures
        decode_spec(encode_spec(s, k), k) == Ok::<Seq<char>, CodecError>(s),
{
    let utf8 = encode_utf8(s);
    let mixed = keystream_xor(utf8, k);
    let diffused = diffuse_spec(mixed);
    lemma_unpack_pack(diffused);
    lemma_undiffuse_diffuse(mixed);
    lemma_keystream_involution(utf8, k);
    encode_utf8_valid_utf8(s);
    encode_utf8_decode_utf8(s);
}

/// A symbol string that decodes under a key is exactly the encoding, under
/// that key, of what it decodes to: each text has one encoding per key.
pub proof fn lemma_encode_decode(t: Seq<char>, k: Seq<char>)
    requires
        decode_spec(t, k) is Ok,
    ensures
        encode_spec(decode_spec(t, k)->Ok_0, k) == t,
{
    let b = unpack_spec(t)->Ok_0;
    let u = undiffuse_spec(b);
    let plain = keystream_xor(u, k);
    decode_utf8_encode_utf8(plain);
    lemma_keystream_involution(u, k);
    lemma_diffuse_undiffuse(b);
    lemma_pack_unpack(t);
}

/// An encoding is three symbols per UTF-8 byte of the text.
pub proof fn lemma_encode_len(s: Seq<char>, k: Seq<char>)
    ensures
        encode_spec(s, k).len() == 3 * encode_utf8(s).len(),
{
    let mixed = keystream_xor(encode_utf8(s), k);
    lemma_diffuse_len(mixed);
    lemma_pack_len(diffuse_spec(mixed));
}

/// The encoding of a text looks encoded under the same key exactly when the
/// text is not empty.
pub proof fn lemma_encoding_looks_encoded(s: Seq<char>, k: Seq<char>)
    ensures
        looks_encoded_spec(encode_spec(s, k), k) == (s.len() > 0),
{
    lemma_encode_len(s, k);
    lemma_encode_utf8_empty(s);
    lemma_decode_encode(s, k);
    lemma_pack_digits(diffuse_spec(keystream_xor(encode_utf8(s), k)));
}

/// A text looks encoded under a key exactly when it is not empty and decodes
/// under that key.
pub proof fn lemma_looks_encoded_iff_decodes(t: Seq<char>, k: Seq<char>)
    ensures
        looks_encoded_spec(t, k) <==> (t.len() > 0 && decode_spec(t, k) is Ok),
{
    if t.len() > 0 && decode_spec(t, k) is Ok {
        lemma_unpack_ok_digits(t);
    }
}

} // verus!
