//! Passphrase-based key derivation and authenticated encryption of opaque
//! byte buffers.
//!
//! The key-derivation function and the AEAD seal are modelled by the
//! uninterpreted functions [`kdf`] and [`aead_seal`]: both are deterministic
//! functions of their arguments, and the trusted wrappers below state how the
//! outside calls relate to them.  Everything above the wrappers is verified.

use vstd::prelude::*;
use crate::error::Error;
use vstd::slice::{slice_subrange, slice_to_vec};
use chacha20poly1305::KeyInit;

verus! {

pub const SALT_LEN: usize = 16;

pub const NONCE_LEN: usize = 24;

pub const KEY_LEN: usize = 32;

/// What Argon2id derives from a passphrase and a salt: a function of the two
/// arguments alone.
pub uninterp spec fn kdf(pass: Seq<u8>, salt: Seq<u8>) -> Seq<u8>;

/// What XChaCha20-Poly1305 produces for a key, nonce, associated data and
/// message: ciphertext followed by the 16-byte authentication tag, a function
/// of the four arguments alone.
pub uninterp spec fn aead_seal(key: Seq<u8>, nonce: Seq<u8>, aad: Seq<u8>, msg: Seq<u8>) -> Seq<u8>;

/// A salt the key-derivation call accepts: within the length bounds that both
/// argon2 and the stored-header format admit.
pub open spec fn salt_ok(s: Seq<u8>) -> bool {
    8 <= s.len() <= 64
}

/// A byte buffer holding a passphrase or raw secret value; its backing memory
/// is overwritten with zeros when the value is dropped, and the type offers
/// no formatting that could leak it.
#[derive(Clone)]
pub struct Secret(pub Vec<u8>);

impl View for Secret {
    type V = Seq<u8>;

    open spec fn view(&self) -> Seq<u8> {
        self.0@
    }
}

impl Drop for Secret {
    /// Relies on zeroize's `Zeroize for Vec<u8>`: overwrites the buffer
    /// before releasing it.
    #[verifier::external_body]
    fn drop(&mut self)
        opens_invariants none
        no_unwind
    {
        zeroize::Zeroize::zeroize(&mut self.0);
    }
}

impl Secret {
    pub fn new(data: Vec<u8>) -> (r: Secret)
        ensures
            r@ == data@,
    {
        Secret(data)
    }

    pub fn as_bytes(&self) -> (r: &[u8])
        ensures
            r@ == self@,
    {
        self.0.as_slice()
    }
}

/// A 32-byte symmetric key, derived once per store-open from a passphrase and
/// a salt; zeroized on drop like [`Secret`], and likewise never printable.
#[derive(Clone)]
pub struct MasterKey(pub Vec<u8>);

impl View for MasterKey {
    type V = Seq<u8>;

    open spec fn view(&self) -> Seq<u8> {
        self.0@
    }
}

impl Drop for MasterKey {
    /// Relies on zeroize's `Zeroize for Vec<u8>`: overwrites the buffer
    /// before releasing it.
    #[verifier::external_body]
    fn drop(&mut self)
        opens_invariants none
        no_unwind
    {
        zeroize::Zeroize::zeroize(&mut self.0);
    }
}

/// Relies on rand's `ThreadRng`, a CSPRNG reseeded from the operating
/// system: fills a fresh buffer of the requested length.  The contents are
/// random, so only the length is promised.  (The generator panics if the
/// operating system's randomness source fails.)
#[verifier::external_body]
pub fn generate_random_bytes(len: usize) -> (r: Vec<u8>)
    ensures
        r@.len() == len,
{
    let mut bytes = vec![0u8; len];
    rand::Rng::fill_bytes(&mut rand::rng(), &mut bytes);
    bytes
}

/// Relies on argon2's `Argon2::hash_password_into` with the default Argon2id
/// parameters and a 32-byte output: a deterministic function of passphrase
/// and salt.  Within the salt and passphrase bounds the call can fail only
/// when the algorithm's memory cannot be allocated.
#[verifier::external_body]
fn argon2_derive(pass: &[u8], salt: &[u8]) -> (r: Result<Vec<u8>, Error>)
    requires
        salt_ok(salt@),
        pass@.len() <= 0xffff_ffff,
    ensures
        match r {
            Ok(k) => k@ == kdf(pass@, salt@) && k@.len() == 32,
            Err(e) => e == Error::Crypto,
        },
{
    let mut out = [0u8; 32];
    match argon2::Argon2::default().hash_password_into(pass, salt, &mut out) {
        Ok(()) => Ok(out.to_vec()),
        Err(_) => Err(Error::Crypto),
    }
}

/// Relies on chacha20poly1305's `XChaCha20Poly1305` encryption: the result is
/// ciphertext plus a 16-byte tag, a deterministic function of key, nonce,
/// associated data and message; the call fails exactly when the message
/// overruns the cipher's block-counter bound.
#[verifier::external_body]
fn xchacha_seal(key: &[u8], nonce: &[u8], aad: &[u8], msg: &[u8]) -> (r: Result<Vec<u8>, Error>)
    requires
        key@.len() == 32,
        nonce@.len() == 24,
    ensures
        match r {
            Ok(ct) => {
                &&& ct@ == aead_seal(key@, nonce@, aad@, msg@)
                &&& ct@.len() == msg@.len() + 16
                &&& msg@.len() / 64 < 0xffff_ffff
            },
            Err(e) => e == Error::Crypto && msg@.len() / 64 >= 0xffff_ffff,
        },
{
    let cipher = match chacha20poly1305::XChaCha20Poly1305::new_from_slice(key) {
        Ok(c) => c,
        Err(_) => return Err(Error::Crypto),
    };
    let n = match chacha20poly1305::XNonce::try_from(nonce) {
        Ok(n) => n,
        Err(_) => return Err(Error::Crypto),
    };
    chacha20poly1305::aead::Aead::encrypt(&cipher, &n, chacha20poly1305::aead::Payload { msg, aad })
        .map_err(|_| Error::Crypto)
}

/// Relies on chacha20poly1305's `XChaCha20Poly1305` decryption inverting its
/// encryption: decryption succeeds with the original message exactly when the
/// input is what sealing that message under the same key, nonce and
/// associated data produces; any other input fails tag verification.
#[verifier::external_body]
fn xchacha_open(key: &[u8], nonce: &[u8], aad: &[u8], ct: &[u8]) -> (r: Result<Vec<u8>, Error>)
    requires
        key@.len() == 32,
        nonce@.len() == 24,
    ensures
        match r {
            Ok(m) => {
                &&& ct@ == aead_seal(key@, nonce@, aad@, m@)
                &&& m@.len() + 16 == ct@.len()
                &&& m@.len() / 64 < 0xffff_ffff
            },
            Err(e) => {
                &&& e == Error::Crypto
                &&& forall|m: Seq<u8>|
                    m.len() + 16 == ct@.len() && m.len() / 64 < 0xffff_ffff ==> ct@ != aead_seal(
                        key@,
                        nonce@,
                        aad@,
                        m,
                    )
            },
        },
        r matches Ok(p) ==> forall|m: Seq<u8>|
            m.len() + 16 == ct@.len() && m.len() / 64 < 0xffff_ffff && ct@ == aead_seal(
                key@,
                nonce@,
                aad@,
                m,
            ) ==> p@ == m,
{
    let cipher = match chacha20poly1305::XChaCha20Poly1305::new_from_slice(key) {
        Ok(c) => c,
        Err(_) => return Err(Error::Crypto),
    };
    let n = match chacha20poly1305::XNonce::try_from(nonce) {
        Ok(n) => n,
        Err(_) => return Err(Error::Crypto),
    };
    chacha20poly1305::aead::Aead::decrypt(&cipher, &n, chacha20poly1305::aead::Payload {
        msg: ct,
        aad,
    }).map_err(|_| Error::Crypto)
}

impl MasterKey {
    /// A usable key: exactly 32 bytes.
    pub open spec fn is_valid(&self) -> bool {
        self@.len() == 32
    }

    pub fn new(key: Vec<u8>) -> (r: MasterKey)
        ensures
            r@ == key@,
    {
        MasterKey(key)
    }

    /// Derives a key from the passphrase and the given salt, or from a fresh
    /// random 16-byte salt when none is supplied.  Deterministic: the same
    /// passphrase and salt always yield the same key.  Returns the salt
    /// actually used, so the caller can persist it.
    pub fn derive_from_passphrase(passphrase: &Secret, salt: Option<&[u8]>) -> (r: Result<
        (MasterKey, Vec<u8>),
        Error,
    >)
        ensures
            r matches Ok(p) ==> {
                &&& p.0@ == kdf(passphrase@, p.1@)
                &&& p.0.is_valid()
                &&& salt_ok(p.1@)
                &&& match salt {
                    Some(s) => p.1@ == s@,
                    None => p.1@.len() == 16,
                }
            },
            r matches Err(e) ==> e == Error::Crypto,
            salt matches Some(s) && !salt_ok(s@) ==> r is Err,
            passphrase@.len() > 0xffff_ffff ==> r is Err,
    {
        let pass = passphrase.as_bytes();
        if pass.len() > 0xffff_ffff {
            return Err(Error::Crypto);
        }
        match salt {
            Some(s) => {
                if s.len() < 8 || s.len() > 64 {
                    return Err(Error::Crypto);
                }
                let key = argon2_derive(pass, s)?;
                Ok((MasterKey(key), slice_to_vec(s)))
            },
            None => {
                let fresh = generate_random_bytes(SALT_LEN);
                let key = argon2_derive(pass, fresh.as_slice())?;
                Ok((MasterKey(key), fresh))
            },
        }
    }

    /// Seals the plaintext under this key with a fresh random 24-byte nonce,
    /// binding the associated data into the authentication tag, and returns
    /// `nonce || ciphertext+tag`.
    pub fn encrypt(&self, plaintext: &[u8], associated_data: &[u8]) -> (r: Result<Vec<u8>, Error>)
        requires
            self.is_valid(),
        ensures
            r matches Ok(ct) ==> {
                &&& ct@.len() == plaintext@.len() + 40
                &&& plaintext@.len() / 64 < 0xffff_ffff
                &&& ct@.skip(24) == aead_seal(self@, ct@.take(24), associated_data@, plaintext@)
                &&& ct@.take(24).len() == 24
            },
            r matches Err(e) ==> e == Error::Crypto,
            plaintext@.len() / 64 < 0xffff_ffff ==> r is Ok,
    {
        let nonce = generate_random_bytes(NONCE_LEN);
        let sealed = match xchacha_seal(self.0.as_slice(), nonce.as_slice(), associated_data, plaintext) {
            Ok(c) => c,
            Err(e) => {
                return Err(e);
            },
        };
        let ghost nonce_v = nonce@;
        let ghost sealed_v = sealed@;
        let mut out = nonce;
        let mut sealed = sealed;
        out.append(&mut sealed);
        proof {
            assert(out@.take(24) =~= nonce_v);
            assert(out@.skip(24) =~= sealed_v);
        }
        Ok(out)
    }

    /// Splits the leading 24 bytes as the nonce and opens the remainder.
    /// Succeeds with the original plaintext exactly when the remainder is a
    /// seal of that plaintext under this key, the nonce and the associated
    /// data; any truncated or altered input, and any wrong key, fails with
    /// the single generic [`Error::Crypto`].
    pub fn decrypt(&self, ciphertext_with_nonce: &[u8], associated_data: &[u8]) -> (r: Result<
        Vec<u8>,
        Error,
    >)
        requires
            self.is_valid(),
        ensures
            ciphertext_with_nonce@.len() < 24 ==> r is Err,
            r matches Ok(m) ==> {
                &&& ciphertext_with_nonce@.len() >= 24
                &&& m@.len() + 40 == ciphertext_with_nonce@.len()
                &&& m@.len() / 64 < 0xffff_ffff
                &&& ciphertext_with_nonce@.skip(24) == aead_seal(
                    self@,
                    ciphertext_with_nonce@.take(24),
                    associated_data@,
                    m@,
                )
            },
            r matches Ok(p) ==> forall|m: Seq<u8>|
                m.len() + 40 == ciphertext_with_nonce@.len() && m.len() / 64 < 0xffff_ffff
                    && ciphertext_with_nonce@.skip(24) == aead_seal(
                    self@,
                    ciphertext_with_nonce@.take(24),
                    associated_data@,
                    m,
                ) ==> p@ == m,
            r matches Err(e) ==> e == Error::Crypto,
            r is Err ==> forall|m: Seq<u8>|
                m.len() + 40 == ciphertext_with_nonce@.len() && m.len() / 64 < 0xffff_ffff
                    ==> ciphertext_with_nonce@.skip(24) != aead_seal(
                    self@,
                    ciphertext_with_nonce@.take(24),
                    associated_data@,
                    m,
                ),
    {
        if ciphertext_with_nonce.len() < 24 {
            return Err(Error::Crypto);
        }
        let nonce = slice_subrange(ciphertext_with_nonce, 0, 24);
        let ct = slice_subrange(ciphertext_with_nonce, 24, ciphertext_with_nonce.len());
        proof {
            assert(nonce@ =~= ciphertext_with_nonce@.take(24));
            assert(ct@ =~= ciphertext_with_nonce@.skip(24));
        }
        xchacha_open(self.0.as_slice(), nonce, associated_data, ct)
    }
}

} // verus!
