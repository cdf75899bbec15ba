//! AES-128-CCM with a 7 byte nonce and a 4 byte tag, as provided by the
//! `ccm` and `aes` crates.

use vstd::prelude::*;

verus! {

/// The ciphertext followed by the tag that AES-128-CCM (4 byte tag, 7 byte
/// nonce) produces for a key, a nonce, associated data and a plaintext.
pub uninterp spec fn ccm_seal(key: Seq<u8>, nonce: Seq<u8>, aad: Seq<u8>, plain: Seq<u8>) -> Seq<u8>;

/// What AES-128-CCM (4 byte tag, 7 byte nonce) decryption yields for a key,
/// a nonce, associated data and a ciphertext with its trailing tag: the
/// plaintext when the tag verifies, and nothing otherwise.
pub uninterp spec fn ccm_open(key: Seq<u8>, nonce: Seq<u8>, aad: Seq<u8>, sealed: Seq<u8>) -> Option<Seq<u8>>;

/// Relies on `ccm::Ccm::<Aes128, U4, U7>::new` and
/// `AeadInPlace::encrypt_in_place`: the ciphertext has the plaintext's
/// length and is followed by the 4 byte tag; decrypting it under the same
/// key, nonce and associated data gives the plaintext back. With a 7 byte
/// nonce the plaintext may be up to `usize::MAX` bytes long, and a `Vec`
/// buffer always grows, so encryption does not fail.
#[verifier::external_body]
pub(crate) fn ccm_encrypt(key: &[u8; 16], nonce: &[u8; 7], aad: &[u8; 4], plain: &[u8]) -> (r:
    Option<Vec<u8>>)
    ensures
        r is Some,
        r matches Some(c) ==> c@ == ccm_seal(key@, nonce@, aad@, plain@),
        r matches Some(c) ==> c@.len() == plain@.len() + 4,
        r matches Some(c) ==> ccm_open(key@, nonce@, aad@, c@) == Some(plain@),
{
    let cipher: ccm::Ccm<aes::Aes128, ccm::consts::U4, ccm::consts::U7> = ccm::KeyInit::new(
        aead::generic_array::GenericArray::from_slice(key),
    );
    let mut buf: Vec<u8> = plain.to_vec();
    let nonce = aead::generic_array::GenericArray::from_slice(nonce);
    match ccm::AeadInPlace::encrypt_in_place(&cipher, nonce, aad, &mut buf) {
        Ok(()) => Some(buf),
        Err(_) => None,
    }
}

/// Relies on `ccm::Ccm::<Aes128, U4, U7>::new` and
/// `AeadInPlace::decrypt_in_place`: the last 4 bytes are the tag; the
/// plaintext comes back when the tag verifies, and an input shorter than
/// the tag is refused.
#[verifier::external_body]
pub(crate) fn ccm_decrypt(key: &[u8; 16], nonce: &[u8; 7], aad: &[u8; 4], sealed: &[u8]) -> (r:
    Option<Vec<u8>>)
    ensures
        match r {
            Some(p) => ccm_open(key@, nonce@, aad@, sealed@) == Some(p@),
            None => ccm_open(key@, nonce@, aad@, sealed@) is None,
        },
        sealed@.len() < 4 ==> r is None,
        r matches Some(p) ==> p@.len() + 4 == sealed@.len(),
{
    let cipher: ccm::Ccm<aes::Aes128, ccm::consts::U4, ccm::consts::U7> = ccm::KeyInit::new(
        aead::generic_array::GenericArray::from_slice(key),
    );
    let mut buf: Vec<u8> = sealed.to_vec();
    let nonce = aead::generic_array::GenericArray::from_slice(nonce);
    match ccm::AeadInPlace::decrypt_in_place(&cipher, nonce, aad, &mut buf) {
        Ok(()) => Some(buf),
        Err(_) => None,
    }
}

} // verus!
