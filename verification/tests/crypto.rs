use hiddenwave::crypto::{decrypt_payload, encrypt_payload, encrypt_payload_with};
use hiddenwave::HiddenWaveError;

#[test]
fn encrypt_then_decrypt() {
    let data = b"Meeting at midnight".to_vec();
    let c = encrypt_payload(&data, "SuperSecret123").unwrap();
    assert_eq!(c.len(), 16 + 12 + data.len() + 16);
    assert_eq!(decrypt_payload(&c, "SuperSecret123").unwrap(), data);
}

#[test]
fn encrypt_with_layout() {
    let salt = [1u8; 16];
    let nonce = [2u8; 12];
    let c = encrypt_payload_with(b"hello", "pw", &salt, &nonce).unwrap();
    assert_eq!(&c[..16], &salt);
    assert_eq!(&c[16..28], &nonce);
    assert_eq!(c.len(), 28 + 5 + 16);
    assert_ne!(&c[28..33], b"hello");
    let again = encrypt_payload_with(b"hello", "pw", &salt, &nonce).unwrap();
    assert_eq!(c, again);
    assert_eq!(decrypt_payload(&c, "pw").unwrap(), b"hello".to_vec());
}

#[test]
fn decrypt_wrong_password() {
    let c = encrypt_payload(b"data", "right").unwrap();
    match decrypt_payload(&c, "wrong") {
        Err(HiddenWaveError::Crypto(msg)) => {
            assert_eq!(msg, "Decryption failed. Incorrect password or corrupted data.")
        }
        _ => panic!("expected Crypto error"),
    }
}

#[test]
fn decrypt_too_short() {
    match decrypt_payload(&[0u8; 27], "pw") {
        Err(HiddenWaveError::Crypto(msg)) => assert_eq!(msg, "Data too short to be encrypted"),
        _ => panic!("expected Crypto error"),
    }
}

#[test]
fn decrypt_corrupted() {
    let mut c = encrypt_payload(b"payload", "pw").unwrap();
    let last = c.len() - 1;
    c[last] ^= 1;
    assert!(matches!(decrypt_payload(&c, "pw"), Err(HiddenWaveError::Crypto(_))));
}

#[test]
fn encrypt_empty_payload() {
    let c = encrypt_payload(b"", "pw").unwrap();
    assert_eq!(c.len(), 44);
    assert_eq!(decrypt_payload(&c, "pw").unwrap(), Vec::<u8>::new());
}

#[test]
fn encrypted_hidden_round_trip() {
    let mut pcm = vec![0x55u8; 8000];
    let c = encrypt_payload(b"top secret", "pw").unwrap();
    hiddenwave::embed(&mut pcm, &c, "", false).unwrap();
    let out = hiddenwave::extract(&pcm);
    // The ciphertext may by chance contain the end marker; decrypt when it does not.
    if let Ok(out) = out {
        if out.data == c {
            assert_eq!(decrypt_payload(&out.data, "pw").unwrap(), b"top secret".to_vec());
        }
    }
}

#[test]
fn encryptions_use_fresh_salt_and_nonce() {
    let a = encrypt_payload(b"same", "pw").unwrap();
    let b = encrypt_payload(b"same", "pw").unwrap();
    assert_ne!(&a[..28], &b[..28]);
    assert_eq!(decrypt_payload(&a, "pw").unwrap(), decrypt_payload(&b, "pw").unwrap());
}

#[test]
fn decrypted_length_is_ciphertext_less_overhead() {
    let data = vec![7u8; 123];
    let c = encrypt_payload(&data, "pw").unwrap();
    assert_eq!(c.len(), 44 + data.len());
    let p = decrypt_payload(&c, "pw").unwrap();
    assert_eq!(p.len() + 44, c.len());
}
