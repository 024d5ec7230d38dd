//! Standalone text obfuscation: encrypt a short string to printable
//! text with a fixed marker prefix, and reverse it.
//!
//! Decryption degrades gracefully: input whose body is not valid
//! encoded text comes back unchanged, so malformed input never fails.

use vstd::prelude::*;
use vstd::string::StringExecFns;
use vstd::utf8::{decode_utf8, encode_utf8, encode_utf8_decode_utf8, encode_utf8_valid_utf8,
    valid_utf8};
use crate::cipher::{lemma_xor_involution, spec_xor, xor_encrypt_decrypt};
use crate::codec::{base64_encode, decode_chars, lemma_codec_round_trip, spec_decode, spec_encode};
use crate::strutil::{str_to_chars, utf8_to_string};

verus! {

/// The marker that prefixes obfuscated text.
pub open spec fn marker() -> Seq<char> {
    "LOCKED:"@
}

/// The obfuscated form of a text: its UTF-8 bytes run through the
/// cipher, encoded printably, behind the marker.
pub open spec fn spec_encrypt_text(text: Seq<char>, key: Seq<u8>) -> Seq<char> {
    marker() + spec_encode(spec_xor(encode_utf8(text), key))
}

/// What decryption yields: the marker is stripped when present, the
/// body decoded and deciphered.  A body that does not decode gives the
/// whole input back unchanged; decoded bytes that do not decipher to
/// valid UTF-8 give an empty result.
pub open spec fn spec_decrypt_text(text: Seq<char>, key: Seq<u8>) -> Seq<char> {
    let body = if text.len() >= marker().len() && text.take(marker().len() as int) == marker() {
        text.skip(marker().len() as int)
    } else {
        text
    };
    match spec_decode(body) {
        None => text,
        Some(bytes) => {
            let plain = spec_xor(bytes, key);
            if valid_utf8(plain) {
                decode_utf8(plain)
            } else {
                Seq::empty()
            }
        },
    }
}

/// Obfuscates a text: cipher over its UTF-8 bytes, then the printable
/// codec, behind the marker.
pub fn encrypt_text(text: &str, key: &[u8]) -> (r: String)
    requires
        key.len() > 0,
    ensures
        r@ == spec_encrypt_text(text@, key@),
{
    let enc = xor_encrypt_decrypt(text.as_bytes(), key);
    let body = base64_encode(enc.as_slice());
    let mut out = "LOCKED:".to_owned();
    out.append(body.as_str());
    out
}

/// Reverses [`encrypt_text`]: strips the marker when present, decodes
/// and deciphers.  Returns the input unchanged when the body is not
/// decodable text, and an empty string when the deciphered bytes are
/// not valid UTF-8.
pub fn decrypt_text(text: &str, key: &[u8]) -> (r: String)
    requires
        key.len() > 0,
    ensures
        r@ == spec_decrypt_text(text@, key@),
{
    proof {
        reveal_strlit("LOCKED:");
    }
    let cs = str_to_chars(text);
    let has_marker = cs.len() >= 7 && cs[0] == 'L' && cs[1] == 'O' && cs[2] == 'C' && cs[3] == 'K'
        && cs[4] == 'E' && cs[5] == 'D' && cs[6] == ':';
    let start: usize = if has_marker {
        7
    } else {
        0
    };
    proof {
        if has_marker {
            assert(text@.take(7) =~= marker());
        } else if text@.len() >= 7 {
            if text@.take(7) == marker() {
                assert(text@.take(7)[0] == text@[0]);
                assert(text@.take(7)[1] == text@[1]);
                assert(text@.take(7)[2] == text@[2]);
                assert(text@.take(7)[3] == text@[3]);
                assert(text@.take(7)[4] == text@[4]);
                assert(text@.take(7)[5] == text@[5]);
                assert(text@.take(7)[6] == text@[6]);
                assert(false);
            }
        }
    }
    let mut body: Vec<char> = Vec::new();
    let mut i: usize = start;
    while i < cs.len()
        invariant
            start <= i <= cs@.len(),
            cs@ == text@,
            body@ == cs@.subrange(start as int, i as int),
        decreases cs@.len() - i,
    {
        body.push(cs[i]);
        proof {
            assert(body@ =~= cs@.subrange(start as int, i as int + 1));
        }
        i = i + 1;
    }
    proof {
        assert(body@ =~= text@.skip(start as int));
        if start == 0 {
            assert(body@ =~= text@);
        }
    }
    match decode_chars(body.as_slice()) {
        Err(_) => text.to_owned(),
        Ok(bytes) => {
            let plain = xor_encrypt_decrypt(bytes.as_slice(), key);
            match utf8_to_string(plain) {
                Some(s) => s,
                None => String::new(),
            }
        },
    }
}

/// Decrypting what encryption produced gives back exactly the original
/// text, whatever the text and whatever the (non-empty) key.
pub proof fn lemma_text_round_trip(text: Seq<char>, key: Seq<u8>)
    requires
        key.len() > 0,
    ensures
        spec_decrypt_text(spec_encrypt_text(text, key), key) == text,
{
    reveal_strlit("LOCKED:");
    let bytes = encode_utf8(text);
    let enc = spec_xor(bytes, key);
    let e = spec_encode(enc);
    let full = marker() + e;
    assert(full.take(7) =~= marker());
    assert(full.skip(7) =~= e);
    lemma_codec_round_trip(enc);
    lemma_xor_involution(bytes, key);
    encode_utf8_valid_utf8(text);
    encode_utf8_decode_utf8(text);
}

} // verus!
