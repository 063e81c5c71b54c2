//! Password-based authenticated encryption of payloads: AES-256-GCM under a
//! key derived with PBKDF2-HMAC-SHA256. An encrypted payload is the salt,
//! then the nonce, then the ciphertext with its tag.
use crate::error::HiddenWaveError;
use aes_gcm::aead::rand_core::RngCore;
use aes_gcm::aead::{Aead, AeadCore, KeyInit, OsRng};
use aes_gcm::Aes256Gcm;
use vstd::prelude::*;
use vstd::string::StringExecFns;
use vstd::utf8::encode_utf8;

verus! {

/// Length of the random salt in front of an encrypted payload.
pub const SALT_LEN: usize = 16;

/// Length of the random nonce after the salt.
pub const NONCE_LEN: usize = 12;

/// PBKDF2 iteration count.
pub const ITERATIONS: u32 = 100_000;

/// The AEAD error type of `aes-gcm`, which carries no information.
#[verifier::external_type_specification]
#[verifier::external_body]
pub struct ExAeadError(aes_gcm::Error);

/// Largest plaintext, in bytes, that AES-GCM encrypts.
pub open spec fn aes_gcm_max_plaintext() -> int {
    0x10_0000_0000
}

/// The bytes PBKDF2-HMAC-SHA256 derives from `password` and `salt` with
/// `rounds` iterations, `len` bytes long.
pub uninterp spec fn pbkdf2_hmac_sha256(password: Seq<u8>, salt: Seq<u8>, rounds: u32, len: nat) -> Seq<u8>;

/// The ciphertext with appended tag that AES-256-GCM produces for
/// `plaintext` under `key` and `nonce`, with no associated data.
pub uninterp spec fn aes256gcm_seal(key: Seq<u8>, nonce: Seq<u8>, plaintext: Seq<u8>) -> Seq<u8>;

/// The plaintext AES-256-GCM recovers from `ciphertext` under `key` and
/// `nonce`, with no associated data; `None` when the tag does not match.
pub uninterp spec fn aes256gcm_open(key: Seq<u8>, nonce: Seq<u8>, ciphertext: Seq<u8>) -> Option<Seq<u8>>;

/// Calls `pbkdf2::pbkdf2_hmac::<Sha256>`, which fills `res` with the derived
/// key. The result depends on the password, the salt, the round count and
/// the length of `res` alone; the algorithm itself is not stated.
#[verifier::external_body]
fn pbkdf2_hmac_sha256_fill(password: &[u8], salt: &[u8], rounds: u32, res: &mut [u8])
    ensures
        final(res)@.len() == old(res)@.len(),
        final(res)@ == pbkdf2_hmac_sha256(password@, salt@, rounds, old(res)@.len()),
{
    pbkdf2::pbkdf2_hmac::<sha2::Sha256>(password, salt, rounds, res)
}

/// Calls `OsRng::fill_bytes`: fills `dest` with random bytes from the
/// operating system. Nothing is stated of the bytes.
#[verifier::external_body]
fn os_fill_bytes(dest: &mut [u8])
    ensures
        final(dest)@.len() == old(dest)@.len(),
{
    OsRng.fill_bytes(dest)
}

/// Calls `Aes256Gcm::generate_nonce` with `OsRng`: twelve random bytes.
/// Nothing is stated of the bytes.
#[verifier::external_body]
fn generate_nonce() -> (nonce: [u8; 12]) {
    Aes256Gcm::generate_nonce(&mut OsRng).into()
}

/// Calls `Aead::encrypt` of `Aes256Gcm` keyed with `key`, with no
/// associated data. It fails exactly when the plaintext is longer than the
/// AES-GCM limit; the ciphertext is the plaintext's length plus a 16-byte tag.
#[verifier::external_body]
fn aes256gcm_encrypt(key: &[u8], nonce: &[u8], plaintext: &[u8]) -> (res: Result<Vec<u8>, aes_gcm::Error>)
    requires
        key@.len() == 32,
        nonce@.len() == 12,
    ensures
        match res {
            Ok(c) => {
                &&& plaintext@.len() <= aes_gcm_max_plaintext()
                &&& c@ == aes256gcm_seal(key@, nonce@, plaintext@)
                &&& c@.len() == plaintext@.len() + 16
            },
            Err(_) => plaintext@.len() > aes_gcm_max_plaintext(),
        },
{
    let cipher = Aes256Gcm::new(aes_gcm::Key::<Aes256Gcm>::from_slice(key));
    cipher.encrypt(aes_gcm::Nonce::from_slice(nonce), plaintext)
}

/// Calls `Aead::decrypt` of `Aes256Gcm` keyed with `key`, with no
/// associated data. What it returns is `aes256gcm_open`, 16 bytes shorter
/// than the ciphertext (the tag is cut off); a ciphertext that
/// encryption under the same key and nonce produced decrypts to its
/// plaintext.
#[verifier::external_body]
fn aes256gcm_decrypt(key: &[u8], nonce: &[u8], ciphertext: &[u8]) -> (res: Result<Vec<u8>, aes_gcm::Error>)
    requires
        key@.len() == 32,
        nonce@.len() == 12,
    ensures
        match res {
            Ok(p) => aes256gcm_open(key@, nonce@, ciphertext@) == Some(p@) && p@.len() + 16
                == ciphertext@.len(),
            Err(_) => aes256gcm_open(key@, nonce@, ciphertext@) is None,
        },
        forall|p: Seq<u8>|
            #![trigger aes256gcm_seal(key@, nonce@, p)]
            p.len() <= aes_gcm_max_plaintext() && ciphertext@ == aes256gcm_seal(key@, nonce@, p)
                ==> (res is Ok && res.unwrap()@ == p),
{
    let cipher = Aes256Gcm::new(aes_gcm::Key::<Aes256Gcm>::from_slice(key));
    cipher.decrypt(aes_gcm::Nonce::from_slice(nonce), ciphertext)
}

/// The 32-byte key derived from `password` (as UTF-8) and `salt`.
pub open spec fn derived_key(password: Seq<char>, salt: Seq<u8>) -> Seq<u8> {
    pbkdf2_hmac_sha256(encode_utf8(password), salt, ITERATIONS, 32)
}

/// The key is PBKDF2-HMAC-SHA256 over the UTF-8 bytes of the password and
/// the salt, with 100,000 rounds and 32 bytes of output.
pub proof fn lemma_key_is_pbkdf2_100000(password: Seq<char>, salt: Seq<u8>)
    ensures
        derived_key(password, salt) == pbkdf2_hmac_sha256(encode_utf8(password), salt, 100_000u32, 32),
{
}

/// Derives the 32-byte key from `password` and `salt`.
fn derive_key(password: &str, salt: &[u8]) -> (key: [u8; 32])
    ensures
        key@ == derived_key(password@, salt@),
{
    let mut key_bytes: [u8; 32] = [0u8; 32];
    pbkdf2_hmac_sha256_fill(password.as_bytes(), salt, ITERATIONS, &mut key_bytes);
    key_bytes
}

/// The encrypted form of `data` under `password` with the given salt and
/// nonce: salt, nonce, then the AES-256-GCM ciphertext with its tag.
pub open spec fn sealed_payload(
    data: Seq<u8>,
    password: Seq<char>,
    salt: Seq<u8>,
    nonce: Seq<u8>,
) -> Seq<u8> {
    salt + nonce + aes256gcm_seal(derived_key(password, salt), nonce, data)
}

/// Encrypts `data` under `password` with the given salt and nonce.
pub fn encrypt_payload_with(
    data: &[u8],
    password: &str,
    salt: &[u8; 16],
    nonce: &[u8; 12],
) -> (res: Result<Vec<u8>, HiddenWaveError>)
    ensures
        match res {
            Ok(c) => data@.len() <= aes_gcm_max_plaintext() && c@ == sealed_payload(
                data@,
                password@,
                salt@,
                nonce@,
            ) && c@.len() == SALT_LEN + NONCE_LEN + data@.len() + 16 && c@ == salt@ + nonce@
                + aes256gcm_seal(
                pbkdf2_hmac_sha256(encode_utf8(password@), salt@, 100_000u32, 32),
                nonce@,
                data@,
            ),
            Err(e) => data@.len() > aes_gcm_max_plaintext() && (e matches HiddenWaveError::Crypto(
                msg,
            ) && msg@ == "Encryption failed"@),
        },
{
    proof {
        lemma_key_is_pbkdf2_100000(password@, salt@);
    }
    let key_bytes = derive_key(password, salt.as_slice());
    let ciphertext = match aes256gcm_encrypt(key_bytes.as_slice(), nonce.as_slice(), data) {
        Ok(c) => c,
        Err(_) => {
            return Err(HiddenWaveError::Crypto(String::from_str("Encryption failed")));
        },
    };
    let mut result: Vec<u8> = Vec::new();
    result.extend_from_slice(salt.as_slice());
    result.extend_from_slice(nonce.as_slice());
    result.extend_from_slice(ciphertext.as_slice());
    assert(result@ =~= sealed_payload(data@, password@, salt@, nonce@));
    Ok(result)
}

/// Encrypts `data` under `password` with a fresh random salt and nonce.
pub fn encrypt_payload(data: &[u8], password: &str) -> (res: Result<Vec<u8>, HiddenWaveError>)
    ensures
        match res {
            Ok(c) => data@.len() <= aes_gcm_max_plaintext() && c@.len() == SALT_LEN + NONCE_LEN
                + data@.len() + 16 && exists|salt: Seq<u8>, nonce: Seq<u8>|
                salt.len() == SALT_LEN && nonce.len() == NONCE_LEN && c@ == sealed_payload(
                    data@,
                    password@,
                    salt,
                    nonce,
                ),
            Err(e) => data@.len() > aes_gcm_max_plaintext() && (e matches HiddenWaveError::Crypto(
                msg,
            ) && msg@ == "Encryption failed"@),
        },
{
    let mut salt: [u8; 16] = [0u8; 16];
    os_fill_bytes(&mut salt);
    let nonce = generate_nonce();
    encrypt_payload_with(data, password, &salt, &nonce)
}

/// Decrypts a payload that `encrypt_payload` produced under `password`.
///
/// Fails with `Crypto` when `data` is shorter than salt and nonce, or when
/// the ciphertext does not authenticate under the derived key. Whatever
/// `encrypt_payload` produced under the same password decrypts to the data
/// it encrypted.
pub fn decrypt_payload(data: &[u8], password: &str) -> (res: Result<Vec<u8>, HiddenWaveError>)
    ensures
        data@.len() < SALT_LEN + NONCE_LEN ==> (res matches Err(HiddenWaveError::Crypto(msg))
            && msg@ == "Data too short to be encrypted"@),
        data@.len() >= SALT_LEN + NONCE_LEN ==> match aes256gcm_open(
            derived_key(password@, data@.take(SALT_LEN as int)),
            data@.subrange(SALT_LEN as int, (SALT_LEN + NONCE_LEN) as int),
            data@.skip((SALT_LEN + NONCE_LEN) as int),
        ) {
            Some(p) => res matches Ok(q) && q@ == p && q@.len() + SALT_LEN + NONCE_LEN + 16
                == data@.len(),
            None => res matches Err(HiddenWaveError::Crypto(msg)) && msg@
                == "Decryption failed. Incorrect password or corrupted data."@,
        },
        forall|p: Seq<u8>, salt: Seq<u8>, nonce: Seq<u8>|
            salt.len() == SALT_LEN && nonce.len() == NONCE_LEN && p.len()
                <= aes_gcm_max_plaintext() && data@ == #[trigger] sealed_payload(
                p,
                password@,
                salt,
                nonce,
            ) ==> (res matches Ok(q) && q@ == p),
        data@.len() >= 28 ==> match aes256gcm_open(
            pbkdf2_hmac_sha256(encode_utf8(password@), data@.take(16), 100_000u32, 32),
            data@.subrange(16, 28),
            data@.skip(28),
        ) {
            Some(p) => res matches Ok(q) && q@ == p,
            None => res is Err,
        },
        forall|p: Seq<u8>, salt: Seq<u8>, nonce: Seq<u8>|
            #![trigger salt + nonce + aes256gcm_seal(
                pbkdf2_hmac_sha256(encode_utf8(password@), salt, 100_000u32, 32),
                nonce,
                p,
            )]
            salt.len() == 16 && nonce.len() == 12 && p.len() <= aes_gcm_max_plaintext() && data@
                == salt + nonce + aes256gcm_seal(
                pbkdf2_hmac_sha256(encode_utf8(password@), salt, 100_000u32, 32),
                nonce,
                p,
            ) ==> (res matches Ok(q) && q@ == p),
{
    proof {
        assert forall|salt: Seq<u8>| #[trigger] derived_key(password@, salt) == pbkdf2_hmac_sha256(
            encode_utf8(password@),
            salt,
            100_000u32,
            32,
        ) by {
            lemma_key_is_pbkdf2_100000(password@, salt);
        }
    }
    if data.len() < SALT_LEN + NONCE_LEN {
        return Err(HiddenWaveError::Crypto(String::from_str("Data too short to be encrypted")));
    }
    let (salt, rest) = data.split_at(SALT_LEN);
    let (nonce_bytes, ciphertext) = rest.split_at(NONCE_LEN);
    let key_bytes = derive_key(password, salt);
    let res = aes256gcm_decrypt(key_bytes.as_slice(), nonce_bytes, ciphertext);
    proof {
        assert(salt@ =~= data@.take(SALT_LEN as int));
        assert(nonce_bytes@ =~= data@.subrange(SALT_LEN as int, (SALT_LEN + NONCE_LEN) as int));
        assert(ciphertext@ =~= data@.skip((SALT_LEN + NONCE_LEN) as int));
        assert forall|p: Seq<u8>, s: Seq<u8>, n: Seq<u8>|
            s.len() == SALT_LEN && n.len() == NONCE_LEN && p.len() <= aes_gcm_max_plaintext()
                && data@ == #[trigger] sealed_payload(p, password@, s, n) implies (res matches Ok(q)
            && q@ == p) by {
            assert(data@.take(SALT_LEN as int) =~= s);
            assert(data@.subrange(SALT_LEN as int, (SALT_LEN + NONCE_LEN) as int) =~= n);
            assert(data@.skip((SALT_LEN + NONCE_LEN) as int) =~= aes256gcm_seal(
                derived_key(password@, s),
                n,
                p,
            ));
        }
        assert forall|p: Seq<u8>, s: Seq<u8>, n: Seq<u8>|
            #![trigger s + n + aes256gcm_seal(
                pbkdf2_hmac_sha256(encode_utf8(password@), s, 100_000u32, 32),
                n,
                p,
            )]
            s.len() == 16 && n.len() == 12 && p.len() <= aes_gcm_max_plaintext() && data@ == s + n
                + aes256gcm_seal(
                pbkdf2_hmac_sha256(encode_utf8(password@), s, 100_000u32, 32),
                n,
                p,
            ) implies (res matches Ok(q) && q@ == p) by {
            lemma_key_is_pbkdf2_100000(password@, s);
            assert(data@ == sealed_payload(p, password@, s, n));
        }
    }
    match res {
        Ok(p) => Ok(p),
        Err(_) => Err(
            HiddenWaveError::Crypto(
                String::from_str("Decryption failed. Incorrect password or corrupted data."),
            ),
        ),
    }
}

} // verus!
