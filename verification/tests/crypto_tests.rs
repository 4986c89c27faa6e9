use timely_pass::crypto::{generate_random_bytes, MasterKey, Secret};
use timely_pass::error::Error;

#[test]
fn key_derivation_is_deterministic_and_salted() {
    let passphrase = Secret::new(b"kdf-pass".to_vec());
    let (key1, salt) = MasterKey::derive_from_passphrase(&passphrase, None).unwrap();
    assert_eq!(salt.len(), 16);
    assert_eq!(key1.0.len(), 32);

    // Same passphrase and salt: same key.
    let (key2, salt2) = MasterKey::derive_from_passphrase(&passphrase, Some(&salt)).unwrap();
    assert_eq!(salt2, salt);
    assert_eq!(key1.0, key2.0);

    // A different salt gives a different key.
    let other_salt = vec![7u8; 16];
    let (key3, _) = MasterKey::derive_from_passphrase(&passphrase, Some(&other_salt)).unwrap();
    assert_ne!(key1.0, key3.0);

    // A salt outside the accepted bounds is rejected, not a panic.
    let too_short = vec![1u8; 4];
    assert_eq!(
        MasterKey::derive_from_passphrase(&passphrase, Some(&too_short)).err().unwrap(),
        Error::Crypto
    );
}

#[test]
fn encrypt_decrypt_roundtrip_and_binding() {
    let passphrase = Secret::new(b"seal-pass".to_vec());
    let (key, _salt) = MasterKey::derive_from_passphrase(&passphrase, None).unwrap();

    let plaintext = b"attack at dawn";
    let aad = b"header-bytes";
    let sealed = key.encrypt(plaintext, aad).unwrap();
    assert_eq!(sealed.len(), plaintext.len() + 40);

    // The result is not the plaintext shifted in: it decrypts back to it.
    let opened = key.decrypt(&sealed, aad).unwrap();
    assert_eq!(opened, plaintext);

    // Fresh nonces: sealing twice never repeats the image.
    let sealed2 = key.encrypt(plaintext, aad).unwrap();
    assert_ne!(sealed, sealed2);

    // Different associated data invalidates the tag.
    assert_eq!(key.decrypt(&sealed, b"other-aad").err().unwrap(), Error::Crypto);

    // Truncated input is the same generic failure.
    assert_eq!(key.decrypt(&sealed[..10], aad).err().unwrap(), Error::Crypto);

    // A different key cannot open it.
    let (other_key, _) =
        MasterKey::derive_from_passphrase(&Secret::new(b"other".to_vec()), None).unwrap();
    assert!(other_key.decrypt(&sealed, aad).is_err());
}

#[test]
fn random_bytes_have_the_requested_length() {
    let a = generate_random_bytes(32);
    let b = generate_random_bytes(32);
    assert_eq!(a.len(), 32);
    assert_eq!(b.len(), 32);
    // 2^-256 odds of a false failure: the generator is not a constant.
    assert_ne!(a, b);
    assert!(generate_random_bytes(0).is_empty());
}

#[test]
fn secret_wraps_its_bytes() {
    let s = Secret::new(b"abc".to_vec());
    assert_eq!(s.as_bytes(), b"abc");
    let k = MasterKey::new(vec![0u8; 32]);
    assert_eq!(k.0.len(), 32);
}
