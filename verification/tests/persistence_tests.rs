use std::io::{Read, Seek, SeekFrom, Write};
use timely_pass::crypto::{MasterKey, Secret};
use timely_pass::store::{Credential, SecretStore, SecretType};

#[test]
fn open_with_key_reproduces_the_sealed_state() {
    let passphrase = Secret::new(b"own-key".to_vec());
    let (mut store, _) = SecretStore::init(&passphrase).unwrap();
    let cred = Credential::new("k".to_string(), SecretType::Key, b"material".to_vec());
    let id = cred.id.clone();
    let container = store.add_credential(cred).unwrap();

    // Re-derive the key from the salt stored in the plaintext header: the
    // header sits after the 4-byte length field as version (4 bytes) and a
    // length-prefixed salt (8-byte length, then 16 salt bytes).
    let salt = &container[16..32];
    let (key, _) = MasterKey::derive_from_passphrase(&passphrase, Some(salt)).unwrap();
    let reopened = SecretStore::open_with_key(&container, key).unwrap();
    assert_eq!(reopened.get_credential(&id).unwrap().secret.data, b"material");

    // A key that did not seal the container cannot open it.
    let (other, _) = MasterKey::derive_from_passphrase(&Secret::new(b"no".to_vec()), None).unwrap();
    assert!(SecretStore::open_with_key(&container, other).is_err());
}

#[test]
fn crash_between_temp_write_and_rename_leaves_original_intact() {
    let dir = tempfile::tempdir().unwrap();
    let path = dir.path().join("store.timely");

    // First image, written the way the shell writes it: a temporary file in
    // the same directory, then an atomic rename onto the target path.
    let passphrase = Secret::new(b"durable".to_vec());
    let (mut store, first_image) = SecretStore::init(&passphrase).unwrap();
    let mut temp = tempfile::NamedTempFile::new_in(dir.path()).unwrap();
    temp.write_all(&first_image).unwrap();
    let mut persisted = temp.persist(&path).unwrap();

    // A mutation yields the next image.  Simulate the process dying between
    // the temp-file write and the rename: the temporary is written and then
    // abandoned, never renamed onto the store path.
    let cred = Credential::new("late".to_string(), SecretType::Password, b"x".to_vec());
    let second_image = store.add_credential(cred).unwrap();
    {
        let mut doomed = tempfile::NamedTempFile::new_in(dir.path()).unwrap();
        doomed.write_all(&second_image).unwrap();
        // dropped without persist: the crash point
    }

    // The store file is byte-identical to the image before the attempt, and
    // still opens to the pre-mutation state.
    persisted.seek(SeekFrom::Start(0)).unwrap();
    let mut on_disk = Vec::new();
    persisted.read_to_end(&mut on_disk).unwrap();
    assert_eq!(on_disk, first_image);
    let reopened = SecretStore::open(&on_disk, &passphrase).unwrap();
    assert!(reopened.list_credentials().is_empty());
}
