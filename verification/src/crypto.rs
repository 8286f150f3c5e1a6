use vstd::prelude::*;

use aes_gcm::aead::generic_array::GenericArray;
use aes_gcm::aead::Aead;
use aes_gcm::Aes256Gcm;
use aes_gcm::KeyInit;
use aes_gcm::Nonce;
use rand::RngCore;
use sha2::Digest;
use sha2::Sha256;

use crate::errors::StegoError;

verus! {

/// The SHA-256 digest of a byte string: a function of the input bytes
/// alone, named here and pinned down only by the trusted wrapper below.
pub uninterp spec fn sha256_of(data: Seq<u8>) -> Seq<u8>;

/// The result of AES-256-GCM authenticated decryption of `ciphertext`
/// (which carries its tag) under `key` and `nonce`: the recovered
/// plaintext, or `None` when authentication fails.
pub uninterp spec fn aead_open_of(key: Seq<u8>, nonce: Seq<u8>, ciphertext: Seq<u8>) -> Option<
    Seq<u8>,
>;

/// The AES-256-GCM ciphertext-plus-tag sealed from `plaintext` under
/// `key` and `nonce`: a function of the three arguments alone.
pub uninterp spec fn aead_seal_of(key: Seq<u8>, nonce: Seq<u8>, plaintext: Seq<u8>) -> Seq<u8>;

/// The decryption outcome for a blob under a password: the blob must
/// carry at least the 12-byte nonce, and the rest must authenticate
/// under the password's SHA-256 key.
pub open spec fn decrypt_spec(blob: Seq<u8>, password: Seq<u8>) -> Option<Seq<u8>> {
    if blob.len() < 12 {
        Option::<Seq<u8>>::None
    } else {
        aead_open_of(sha256_of(password), blob.take(12), blob.skip(12))
    }
}

/// Relies on sha2::Sha256 (update, then finalize): the 32-byte digest is
/// a function of the input bytes alone.
#[verifier::external_body]
fn sha256_hash(data: &[u8]) -> (r: Vec<u8>)
    ensures
        r@ == sha256_of(data@),
        r@.len() == 32,
{
    let mut hasher = Sha256::new();
    hasher.update(data);
    hasher.finalize().to_vec()
}

/// Relies on rand::thread_rng's fill_bytes, a CSPRNG: twelve fresh
/// random bytes; nothing is assumed about their values.
#[verifier::external_body]
fn random_nonce() -> (r: Vec<u8>)
    ensures
        r@.len() == 12,
{
    let mut nonce_bytes = [0u8; 12];
    rand::thread_rng().fill_bytes(&mut nonce_bytes);
    nonce_bytes.to_vec()
}

/// Relies on aes_gcm::Aes256Gcm::encrypt: the ciphertext is a function
/// of key, nonce and plaintext alone, carries a 16-byte tag after the
/// encrypted bytes, and decrypting it under the same key and nonce
/// returns the plaintext (the AEAD round trip).  With no associated
/// data, sealing fails only for plaintexts above AES-GCM's bound of
/// 2^36 bytes.
#[verifier::external_body]
fn aead_seal(key: &Vec<u8>, nonce: &Vec<u8>, plaintext: &[u8]) -> (r: Option<Vec<u8>>)
    requires
        key@.len() == 32,
        nonce@.len() == 12,
    ensures
        r matches Some(c) ==> c@ == aead_seal_of(key@, nonce@, plaintext@) && c@.len()
            == plaintext@.len() + 16 && aead_open_of(key@, nonce@, c@) == Some(plaintext@),
        r is Some <==> plaintext@.len() <= 0x10_0000_0000,
{
    let cipher = Aes256Gcm::new(GenericArray::from_slice(key.as_slice()));
    match cipher.encrypt(Nonce::from_slice(nonce.as_slice()), plaintext) {
        Ok(c) => Some(c),
        Err(_) => None,
    }
}

/// Relies on aes_gcm::Aes256Gcm::decrypt: all-or-nothing authenticated
/// decryption, a function of key, nonce and ciphertext alone.
#[verifier::external_body]
fn aead_open(key: &Vec<u8>, nonce: &[u8], ciphertext: &[u8]) -> (r: Option<Vec<u8>>)
    requires
        key@.len() == 32,
        nonce@.len() == 12,
    ensures
        match r {
            Some(p) => aead_open_of(key@, nonce@, ciphertext@) == Some(p@),
            None => aead_open_of(key@, nonce@, ciphertext@) is None,
        },
{
    let cipher = Aes256Gcm::new(GenericArray::from_slice(key.as_slice()));
    match cipher.decrypt(Nonce::from_slice(nonce), ciphertext) {
        Ok(p) => Some(p),
        Err(_) => None,
    }
}

/// Encrypts a secret under a password: derives the AES-256 key as the
/// password's SHA-256 digest, draws a fresh random 12-byte nonce, seals
/// the secret, and returns the nonce followed by ciphertext-plus-tag.
/// A successful blob always decrypts back to the secret under the same
/// password.  Succeeds for every secret within AES-GCM's plaintext
/// bound; failure is possible only beyond it.
pub fn encrypt_secret(secret: &[u8], password: &[u8]) -> (r: Result<Vec<u8>, StegoError>)
    ensures
        r matches Ok(blob) ==> blob@.len() == secret@.len() + 28 && blob@.skip(12) == aead_seal_of(
            sha256_of(password@),
            blob@.take(12),
            secret@,
        ) && decrypt_spec(blob@, password@) == Some(secret@),
        r matches Err(e) ==> e is EncryptionError && e.detail() == "encryption error"@,
        r is Ok <==> secret@.len() <= 0x10_0000_0000,
{
    let key = sha256_hash(password);
    let mut blob = random_nonce();
    let ghost nonce0 = blob@;
    match aead_seal(&key, &blob, secret) {
        Some(mut ct) => {
            let ghost ct0 = ct@;
            blob.append(&mut ct);
            proof {
                assert(blob@.take(12) =~= nonce0);
                assert(blob@.skip(12) =~= ct0);
            }
            Ok(blob)
        },
        None => Err(StegoError::EncryptionError("encryption error".to_owned())),
    }
}

/// Splits the 12-byte nonce off the blob, derives the key from the
/// password, and opens the ciphertext.  All-or-nothing: a short blob, a
/// wrong password or tampered data yields `DecryptionError`, never
/// partially decrypted bytes.
pub fn decrypt_secret(encrypted_data: &[u8], password: &[u8]) -> (r: Result<Vec<u8>, StegoError>)
    ensures
        match r {
            Ok(s) => decrypt_spec(encrypted_data@, password@) == Some(s@),
            Err(e) => e is DecryptionError && decrypt_spec(encrypted_data@, password@) is None
                && e.detail() == (if encrypted_data@.len() < 12 {
                "encrypted data too short"@
            } else {
                "decryption error: wrong password or corrupted data"@
            }),
        },
{
    if encrypted_data.len() < 12 {
        return Err(StegoError::DecryptionError("encrypted data too short".to_owned()));
    }
    let (nonce_bytes, ciphertext) = encrypted_data.split_at(12);
    proof {
        assert(encrypted_data@.subrange(0, 12) =~= encrypted_data@.take(12));
        assert(encrypted_data@.subrange(12, encrypted_data@.len() as int) =~= encrypted_data@.skip(
            12,
        ));
    }
    let key = sha256_hash(password);
    match aead_open(&key, nonce_bytes, ciphertext) {
        Some(p) => Ok(p),
        None => Err(
            StegoError::DecryptionError(
                "decryption error: wrong password or corrupted data".to_owned(),
            ),
        ),
    }
}

/// Round trip through the crypto layer: a blob whose ciphertext
/// authenticates under a password's key decrypts to the sealed secret.
pub proof fn lemma_crypto_round_trip(blob: Seq<u8>, secret: Seq<u8>, password: Seq<u8>)
    requires
        blob.len() >= 12,
        aead_open_of(sha256_of(password), blob.take(12), blob.skip(12)) == Some(secret),
    ensures
        decrypt_spec(blob, password) == Some(secret),
{
}

} // verus!
