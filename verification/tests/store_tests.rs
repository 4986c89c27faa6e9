use timely_pass::crypto::Secret;
use timely_pass::error::Error;
use timely_pass::policy::{Hook, Policy};
use timely_pass::store::{Credential, SecretStore, SecretType};

fn pass(bytes: &[u8]) -> Secret {
    Secret::new(bytes.to_vec())
}

#[test]
fn roundtrip_preserves_every_mutation() {
    let passphrase = pass(b"round-trip-pass");
    let (mut store, _) = SecretStore::init(&passphrase).unwrap();

    let mut cred = Credential::new("alpha".to_string(), SecretType::Key, vec![1, 2, 3, 255, 0]);
    cred.tags.push("prod".to_string());
    cred.tags.push("db".to_string());
    let cred_id = cred.id.clone();
    store.add_credential(cred).unwrap();

    let policy = Policy::new("pol-1".to_string()).add_hook(Hook::OnlyFor { duration_secs: 60 });
    store.add_policy(policy).unwrap();

    let mut other = Credential::new("beta".to_string(), SecretType::Token, b"tok".to_vec());
    other.policy_id = Some("pol-1".to_string());
    let other_id = other.id.clone();
    store.add_credential(other).unwrap();

    store.increment_usage(&cred_id).unwrap();
    store.increment_usage(&cred_id).unwrap();
    let container = store.remove_credential(&other_id).unwrap().unwrap();

    let reopened = SecretStore::open(&container, &passphrase).unwrap();
    let c = reopened.get_credential(&cred_id).unwrap();
    assert_eq!(c.label, "alpha");
    assert_eq!(c.secret.type_, SecretType::Key);
    assert_eq!(c.secret.data, vec![1, 2, 3, 255, 0]);
    assert_eq!(c.tags, vec!["prod".to_string(), "db".to_string()]);
    assert_eq!(c.usage_counter, 2);
    assert!(reopened.get_credential(&other_id).is_none());

    let p = reopened.get_policy("pol-1").unwrap();
    assert_eq!(p.hooks.len(), 1);
    assert!(matches!(p.hooks[0], Hook::OnlyFor { duration_secs: 60 }));
    assert_eq!(reopened.list_credentials().len(), 1);
    assert_eq!(reopened.list_policies().len(), 1);
}

#[test]
fn wrong_passphrase_is_generic_crypto_failure() {
    let passphrase = pass(b"right");
    let (mut store, _) = SecretStore::init(&passphrase).unwrap();
    let cred = Credential::new("x".to_string(), SecretType::Password, b"v".to_vec());
    let container = store.add_credential(cred).unwrap();

    let res = SecretStore::open(&container, &pass(b"wrong"));
    assert_eq!(res.err().unwrap(), Error::Crypto);
}

#[test]
fn tampering_with_any_region_is_detected() {
    let passphrase = pass(b"tamper-pass");
    let (mut store, _) = SecretStore::init(&passphrase).unwrap();
    let cred = Credential::new("t".to_string(), SecretType::Password, b"secret".to_vec());
    let container = store.add_credential(cred).unwrap();

    // Derive the sealing key once (the salt sits at bytes 16..32 of the
    // plaintext header) so that each flipped image can be checked without
    // paying the memory-hard derivation again.
    let salt = &container[16..32];
    let (key, _) =
        timely_pass::crypto::MasterKey::derive_from_passphrase(&passphrase, Some(salt)).unwrap();

    // A sample of single-bit flips across the image: the length field, the
    // header (version and salt), the nonce, the ciphertext body and the
    // trailing authentication tag.
    let n = container.len();
    let positions = [
        0usize,          // header length field
        4,               // header: version
        9,               // header: salt length
        17,              // header: salt bytes
        n / 2,           // somewhere inside nonce or ciphertext
        n - 20,          // ciphertext near the tag
        n - 1,           // last tag byte
    ];
    for &pos in positions.iter() {
        for bit in 0..8 {
            let mut twisted = container.clone();
            twisted[pos] ^= 1u8 << bit;
            assert!(
                SecretStore::open_with_key(&twisted, key.clone()).is_err(),
                "flip at byte {} bit {} was not rejected",
                pos,
                bit
            );
        }
    }

    // The full passphrase path rejects a flipped salt byte too: the derived
    // key and the authenticated header both change.
    let mut salt_flip = container.clone();
    salt_flip[17] ^= 1;
    assert!(SecretStore::open(&salt_flip, &passphrase).is_err());

    // The untouched image still opens, both ways.
    assert!(SecretStore::open_with_key(&container, key).is_ok());
    assert!(SecretStore::open(&container, &passphrase).is_ok());
}

#[test]
fn truncation_and_version_skew_are_classified() {
    let passphrase = pass(b"frame-pass");
    let (_store, container) = SecretStore::init(&passphrase).unwrap();

    assert_eq!(
        SecretStore::open(&container[..3], &passphrase).err().unwrap(),
        Error::Truncated
    );
    // Cut off inside the header: the frame announces more than is there.
    assert_eq!(
        SecretStore::open(&container[..10], &passphrase).err().unwrap(),
        Error::Truncated
    );
    // Cut off inside the ciphertext: indistinguishable from tampering, so it
    // is the generic cryptographic failure.
    assert_eq!(
        SecretStore::open(&container[..container.len() / 2], &passphrase)
            .err()
            .unwrap(),
        Error::Crypto
    );

    // The version sits in plaintext right after the length field; a different
    // version is format corruption, reported before any key work.
    let mut skewed = container.clone();
    skewed[4] = 9;
    assert_eq!(
        SecretStore::open(&skewed, &passphrase).err().unwrap(),
        Error::Corrupted
    );

    // A well-framed image whose header region is not a header at all is
    // corruption too, again before any key work.
    let garbled: Vec<u8> = vec![3, 0, 0, 0, 1, 2, 3];
    assert_eq!(
        SecretStore::open(&garbled, &passphrase).err().unwrap(),
        Error::Corrupted
    );

    assert_eq!(Error::Corrupted.message(), "store container is corrupted");
    assert_eq!(Error::NotFound.message(), "credential not found");
}

#[test]
fn queries_never_mutate_usage_counters() {
    let passphrase = pass(b"query-pass");
    let (mut store, _) = SecretStore::init(&passphrase).unwrap();
    let cred = Credential::new("q".to_string(), SecretType::Password, b"v".to_vec());
    let id = cred.id.clone();
    let container = store.add_credential(cred).unwrap();

    for _ in 0..3 {
        assert_eq!(store.list_credentials().len(), 1);
        assert_eq!(store.list_policies().len(), 0);
        assert!(store.get_credential(&id).is_some());
        assert!(store.get_policy("nope").is_none());
    }
    assert_eq!(store.get_credential(&id).unwrap().usage_counter, 0);

    // Only increment_usage moves the counter, and it persists the change.
    let container2 = store.increment_usage(&id).unwrap();
    assert_eq!(store.get_credential(&id).unwrap().usage_counter, 1);
    assert_ne!(container, container2);
    let reopened = SecretStore::open(&container2, &passphrase).unwrap();
    assert_eq!(reopened.get_credential(&id).unwrap().usage_counter, 1);
}

#[test]
fn increment_usage_on_missing_id_is_not_found() {
    let passphrase = pass(b"missing-pass");
    let (mut store, _) = SecretStore::init(&passphrase).unwrap();
    assert_eq!(store.increment_usage("ghost").err().unwrap(), Error::NotFound);
}

#[test]
fn add_credential_overwrites_same_id() {
    let passphrase = pass(b"upsert-pass");
    let (mut store, _) = SecretStore::init(&passphrase).unwrap();

    let mut first = Credential::new("one".to_string(), SecretType::Password, b"old".to_vec());
    first.id = "fixed-id".to_string();
    store.add_credential(first).unwrap();

    let mut second = Credential::new("two".to_string(), SecretType::Password, b"new".to_vec());
    second.id = "fixed-id".to_string();
    let container = store.add_credential(second).unwrap();

    let reopened = SecretStore::open(&container, &passphrase).unwrap();
    assert_eq!(reopened.list_credentials().len(), 1);
    assert_eq!(reopened.get_credential("fixed-id").unwrap().secret.data, b"new");

    // Removing an id that is absent is not an error, changes nothing, and
    // hands back no image to write.
    assert!(store.remove_credential("ghost").unwrap().is_none());
    assert_eq!(store.list_credentials().len(), 1);

    // A removed policy leaves a credential's reference dangling, which reads
    // as "no policy enforced" rather than failing.
    store.add_policy(Policy::new("p".to_string())).unwrap();
    assert!(store.get_policy("p").is_some());
    assert!(store.remove_policy("p").unwrap().is_some());
    assert!(store.get_policy("p").is_none());
    assert!(store.remove_policy("p").unwrap().is_none());
}
