//! Repeating-key XOR stream cipher and its key derivation.
//!
//! The cipher combines each data byte with the key byte at the same
//! position modulo the key length.  Applying it twice with the same key
//! returns the original bytes, so one operation serves as both
//! encryption and decryption.

use vstd::prelude::*;

verus! {

/// The bytes of `data` combined with the repeating keystream of `key`.
pub open spec fn spec_xor(data: Seq<u8>, key: Seq<u8>) -> Seq<u8> {
    Seq::new(data.len(), |i: int| data[i] ^ key[i % (key.len() as int)])
}

/// Applies the repeating-key XOR stream to `data`.
///
/// This operation is its own inverse: applying it twice with the same
/// key reproduces the input exactly.  Empty input yields empty output.
pub fn xor_encrypt_decrypt(data: &[u8], key: &[u8]) -> (r: Vec<u8>)
    requires
        key.len() > 0,
    ensures
        r@ == spec_xor(data@, key@),
{
    let mut out: Vec<u8> = Vec::new();
    let mut i: usize = 0;
    while i < data.len()
        invariant
            key.len() > 0,
            i <= data.len(),
            out.len() == i,
            forall|j: int| 0 <= j < i ==> out@[j] == spec_xor(data@, key@)[j],
        decreases data.len() - i,
    {
        out.push(data[i] ^ key[i % key.len()]);
        i = i + 1;
    }
    proof {
        assert(out@ =~= spec_xor(data@, key@));
    }
    out
}

/// Applying the cipher twice with the same key gives back the original
/// byte sequence.
pub proof fn lemma_xor_involution(data: Seq<u8>, key: Seq<u8>)
    requires
        key.len() > 0,
    ensures
        spec_xor(spec_xor(data, key), key) == data,
{
    let once = spec_xor(data, key);
    let twice = spec_xor(once, key);
    assert forall|i: int| 0 <= i < data.len() implies twice[i] == data[i] by {
        let k = key[i % (key.len() as int)];
        let d = data[i];
        assert((d ^ k) ^ k == d) by (bit_vector);
    }
    assert(twice =~= data);
}

/// The 32-byte SHA-256 digest of a byte sequence, a function of the
/// input bytes alone.
pub uninterp spec fn sha256_of(data: Seq<u8>) -> Seq<u8>;

/// Relies on `sha2::Sha256::digest`: the one-shot SHA-256 digest of the
/// input, always 32 bytes and determined by the input bytes alone.
#[verifier::external_body]
fn sha256(data: &[u8]) -> (r: Vec<u8>)
    ensures
        r@ == sha256_of(data@),
        r@.len() == 32,
{
    <sha2::Sha256 as sha2::Digest>::digest(data).to_vec()
}

/// Derives the symmetric key: the digest of the fixed secret
/// concatenated with an environment-specific context value; a missing
/// context contributes nothing rather than failing.
pub fn derive_key(secret: &[u8], context: Option<&[u8]>) -> (r: Vec<u8>)
    ensures
        r@ == sha256_of(
            secret@ + match context {
                Some(c) => c@,
                None => Seq::<u8>::empty(),
            },
        ),
        r@.len() == 32,
{
    let mut input: Vec<u8> = Vec::new();
    let mut i: usize = 0;
    while i < secret.len()
        invariant
            i <= secret.len(),
            input@ == secret@.subrange(0, i as int),
        decreases secret.len() - i,
    {
        input.push(secret[i]);
        proof {
            assert(input@ =~= secret@.subrange(0, i as int + 1));
        }
        i = i + 1;
    }
    proof {
        assert(secret@.subrange(0, secret@.len() as int) =~= secret@);
    }
    match context {
        Some(c) => {
            let mut j: usize = 0;
            while j < c.len()
                invariant
                    j <= c.len(),
                    input@ == secret@ + c@.subrange(0, j as int),
                decreases c.len() - j,
            {
                input.push(c[j]);
                proof {
                    assert(input@ =~= secret@ + c@.subrange(0, j as int + 1));
                }
                j = j + 1;
            }
            proof {
                assert(secret@ + c@.subrange(0, c@.len() as int) =~= secret@ + c@);
            }
        },
        None => {
            proof {
                assert(secret@ + Seq::<u8>::empty() =~= secret@);
            }
        },
    }
    sha256(input.as_slice())
}

} // verus!
