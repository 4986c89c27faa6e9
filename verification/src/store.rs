use vstd::prelude::*;
use crate::codec::{
    enc_u32, enc_header, enc_payload, enc_creds, enc_pols, enc_u32_into, enc_header_into,
    enc_payload_into, dec_u32, dec_header, dec_creds, dec_pols, creds_view, pols_view, strs_view,
    wf_payload, wf_cred, wf_policy, wf_str, lemma_skip_skip, lemma_prefix_concat,
};
use crate::crypto::{aead_seal, kdf, salt_ok, MasterKey, Secret};
use crate::error::Error;
use crate::policy::{Policy, PolicyV};
use crate::sys::{new_uuid_string, now_timestamp};
use vstd::bytes::{lemma_auto_spec_u32_to_from_le_bytes, lemma_auto_spec_u64_to_from_le_bytes};
use vstd::utf8::{encode_utf8, encode_utf8_decode_utf8};
use vstd::slice::{slice_index_get, slice_subrange};
use vstd::string::StringSliceAdditionalSpecFns;

verus! {

/// What kind of secret a credential holds.
#[derive(Clone, Copy, Debug, PartialEq, Eq, Structural)]
pub enum SecretType {
    Password,
    Key,
    Token,
}

/// The mathematical content of a [`CredentialSecret`].
#[verifier::ext_equal]
pub ghost struct CredentialSecretV {
    pub type_: SecretType,
    pub data: Seq<u8>,
}

/// A typed secret value: the kind plus the raw bytes.
#[derive(Clone, Debug)]
pub struct CredentialSecret {
    pub type_: SecretType,
    pub data: Vec<u8>,
}

impl View for CredentialSecret {
    type V = CredentialSecretV;

    open spec fn view(&self) -> CredentialSecretV {
        CredentialSecretV { type_: self.type_, data: self.data@ }
    }
}

impl Drop for CredentialSecret {
    /// Relies on zeroize's `Zeroize for Vec<u8>`: the raw secret bytes are
    /// overwritten before their memory is released, on every exit path.
    #[verifier::external_body]
    fn drop(&mut self)
        opens_invariants none
        no_unwind
    {
        zeroize::Zeroize::zeroize(&mut self.data);
    }
}

/// The mathematical content of a [`Credential`].
#[verifier::ext_equal]
pub ghost struct CredentialV {
    pub id: Seq<char>,
    pub label: Seq<char>,
    pub tags: Seq<Seq<char>>,
    pub created_at: i64,
    pub updated_at: i64,
    pub policy_id: Option<Seq<char>>,
    pub secret: CredentialSecretV,
    pub usage_counter: u64,
}

/// A stored credential.  The id is unique within a store and immutable after
/// creation; `policy_id` is a weak reference into the store's policy map, and
/// the referenced policy may legally be absent.  Timestamps are whole seconds
/// since the Unix epoch.
#[derive(Clone, Debug)]
pub struct Credential {
    pub id: String,
    pub label: String,
    pub tags: Vec<String>,
    pub created_at: i64,
    pub updated_at: i64,
    pub policy_id: Option<String>,
    pub secret: CredentialSecret,
    pub usage_counter: u64,
}

impl View for Credential {
    type V = CredentialV;

    open spec fn view(&self) -> CredentialV {
        CredentialV {
            id: self.id@,
            label: self.label@,
            tags: crate::codec::strs_view(self.tags@),
            created_at: self.created_at,
            updated_at: self.updated_at,
            policy_id: match self.policy_id {
                Some(p) => Some(p@),
                None => None,
            },
            secret: self.secret@,
            usage_counter: self.usage_counter,
        }
    }
}

impl Credential {
    /// A fresh credential: a generated unique id, identical creation and
    /// update stamps, no tags, no policy reference, a zero usage counter, and
    /// the given label and typed secret bytes.
    pub fn new(label: String, secret_type: SecretType, secret_data: Vec<u8>) -> (r: Credential)
        ensures
            r@.id.len() == 36,
            r@.label == label@,
            r@.tags.len() == 0,
            r@.created_at == r@.updated_at,
            r@.policy_id is None,
            r@.secret.type_ == secret_type,
            r@.secret.data == secret_data@,
            r@.usage_counter == 0,
    {
        let now = now_timestamp();
        Credential {
            id: new_uuid_string(),
            label,
            tags: Vec::new(),
            created_at: now,
            updated_at: now,
            policy_id: None,
            secret: CredentialSecret { type_: secret_type, data: secret_data },
            usage_counter: 0,
        }
    }
}

// ---------------------------------------------------------------------------
// Verified equality on byte slices and strings.
// ---------------------------------------------------------------------------

fn bytes_eq(a: &[u8], b: &[u8]) -> (r: bool)
    ensures
        r == (a@ == b@),
{
    if a.len() != b.len() {
        proof {
            assert(a@.len() != b@.len());
        }
        return false;
    }
    let n = a.len();
    let mut i: usize = 0;
    while i < n
        invariant
            i <= n,
            n == a@.len(),
            n == b@.len(),
            forall|j: int| 0 <= j < i ==> a@[j] == b@[j],
        decreases n - i,
    {
        if *slice_index_get(a, i) != *slice_index_get(b, i) {
            proof {
                assert(a@[i as int] != b@[i as int]);
            }
            return false;
        }
        i = i + 1;
    }
    proof {
        assert(a@ =~= b@);
    }
    true
}

/// String equality, decided on the UTF-8 bytes; equal bytes mean equal
/// character sequences because UTF-8 decoding inverts encoding.
pub fn str_eq(a: &str, b: &str) -> (r: bool)
    ensures
        r == (a@ == b@),
{
    let r = bytes_eq(a.as_bytes(), b.as_bytes());
    proof {
        if a.spec_bytes() == b.spec_bytes() {
            encode_utf8_decode_utf8(a@);
            encode_utf8_decode_utf8(b@);
        }
    }
    r
}

// ---------------------------------------------------------------------------
// The store and its mathematical content.
// ---------------------------------------------------------------------------

/// The mathematical content of a [`SecretStore`].
#[verifier::ext_equal]
pub ghost struct SecretStoreV {
    pub salt: Seq<u8>,
    pub key: Seq<u8>,
    pub creds: Seq<CredentialV>,
    pub pols: Seq<PolicyV>,
}

/// Whether some credential in `s` carries the id.
pub open spec fn has_cred(s: Seq<CredentialV>, id: Seq<char>) -> bool {
    exists|i: int| 0 <= i < s.len() && s[i].id == id
}

/// The index of the credential with the id (meaningful when [`has_cred`]).
pub open spec fn cred_idx(s: Seq<CredentialV>, id: Seq<char>) -> int {
    choose|i: int| 0 <= i < s.len() && s[i].id == id
}

/// Whether some policy in `s` carries the id.
pub open spec fn has_pol(s: Seq<PolicyV>, id: Seq<char>) -> bool {
    exists|i: int| 0 <= i < s.len() && s[i].id == id
}

/// The index of the policy with the id (meaningful when [`has_pol`]).
pub open spec fn pol_idx(s: Seq<PolicyV>, id: Seq<char>) -> int {
    choose|i: int| 0 <= i < s.len() && s[i].id == id
}

/// Ids are unique within the credential map.
pub open spec fn creds_unique(s: Seq<CredentialV>) -> bool {
    forall|i: int, j: int| 0 <= i < j < s.len() ==> s[i].id != s[j].id
}

/// Ids are unique within the policy map.
pub open spec fn pols_unique(s: Seq<PolicyV>) -> bool {
    forall|i: int, j: int| 0 <= i < j < s.len() ==> s[i].id != s[j].id
}

/// Insertion with overwrite: a record under an existing id replaces it in
/// place; a fresh id is appended.
pub open spec fn upsert_cred(s: Seq<CredentialV>, c: CredentialV) -> Seq<CredentialV> {
    if has_cred(s, c.id) {
        s.update(cred_idx(s, c.id), c)
    } else {
        s.push(c)
    }
}

/// See [`upsert_cred`].
pub open spec fn upsert_pol(s: Seq<PolicyV>, p: PolicyV) -> Seq<PolicyV> {
    if has_pol(s, p.id) {
        s.update(pol_idx(s, p.id), p)
    } else {
        s.push(p)
    }
}

/// Removal by id; a missing id leaves the map unchanged.
pub open spec fn remove_cred(s: Seq<CredentialV>, id: Seq<char>) -> Seq<CredentialV> {
    if has_cred(s, id) {
        s.remove(cred_idx(s, id))
    } else {
        s
    }
}

/// See [`remove_cred`].
pub open spec fn remove_pol(s: Seq<PolicyV>, id: Seq<char>) -> Seq<PolicyV> {
    if has_pol(s, id) {
        s.remove(pol_idx(s, id))
    } else {
        s
    }
}

/// The container format version this library writes and reads.
pub const STORE_VERSION: u32 = 1;

/// One complete container image: the header length, the plaintext header,
/// then the random nonce and the sealed payload, with the header bytes bound
/// into the authentication tag as associated data.
pub open spec fn is_sealed_container(
    b: Seq<u8>,
    salt: Seq<u8>,
    key: Seq<u8>,
    nonce: Seq<u8>,
    creds: Seq<CredentialV>,
    pols: Seq<PolicyV>,
) -> bool {
    let h = enc_header(STORE_VERSION, salt);
    let pl = enc_payload(creds, pols);
    let ct = aead_seal(key, nonce, h, pl);
    &&& nonce.len() == 24
    &&& ct.len() == pl.len() + 16
    &&& pl.len() / 64 < 0xffff_ffff
    &&& h.len() <= 0xffff_ffff
    &&& b == enc_u32(h.len() as u32) + (h + (nonce + ct))
}

/// The bytes are a container image of exactly this store state, under some
/// nonce.
pub open spec fn is_container_for(b: Seq<u8>, st: SecretStoreV) -> bool {
    exists|nonce: Seq<u8>| is_sealed_container(b, st.salt, st.key, nonce, st.creds, st.pols)
}

/// The encrypted, in-memory store: the key-derivation salt, the derived
/// master key, and the credential and policy maps.  The caller owns the file:
/// [`SecretStore::open`] consumes a container image and every mutating
/// operation hands back the image to persist.
pub struct SecretStore {
    master_key: MasterKey,
    salt: Vec<u8>,
    credentials: Vec<Credential>,
    policies: Vec<Policy>,
}

impl View for SecretStore {
    type V = SecretStoreV;

    closed spec fn view(&self) -> SecretStoreV {
        SecretStoreV {
            salt: self.salt@,
            key: self.master_key@,
            creds: creds_view(self.credentials@),
            pols: pols_view(self.policies@),
        }
    }
}

impl SecretStore {
    /// The store's invariant: a usable key and salt, unique ids, and maps
    /// whose encoding fits the machine.
    pub open spec fn wf(&self) -> bool {
        &&& self@.key.len() == 32
        &&& salt_ok(self@.salt)
        &&& creds_unique(self@.creds)
        &&& pols_unique(self@.pols)
        &&& wf_payload(self@.creds, self@.pols)
    }

    fn find_cred(&self, id: &str) -> (r: Option<usize>)
        ensures
            match r {
                Some(i) => i < self@.creds.len() && self@.creds[i as int].id == id@,
                None => !has_cred(self@.creds, id@),
            },
    {
        let n = self.credentials.len();
        let mut i: usize = 0;
        while i < n
            invariant
                i <= n,
                n == self.credentials@.len(),
                forall|j: int| 0 <= j < i ==> self@.creds[j].id != id@,
            decreases n - i,
        {
            if str_eq(self.credentials[i].id.as_str(), id) {
                return Some(i);
            }
            i = i + 1;
        }
        None
    }

    fn find_pol(&self, id: &str) -> (r: Option<usize>)
        ensures
            match r {
                Some(i) => i < self@.pols.len() && self@.pols[i as int].id == id@,
                None => !has_pol(self@.pols, id@),
            },
    {
        let n = self.policies.len();
        let mut i: usize = 0;
        while i < n
            invariant
                i <= n,
                n == self.policies@.len(),
                forall|j: int| 0 <= j < i ==> self@.pols[j].id != id@,
            decreases n - i,
        {
            if str_eq(self.policies[i].id.as_str(), id) {
                return Some(i);
            }
            i = i + 1;
        }
        None
    }

    /// Pure lookup: the credential under the id, if any.  Never persists.
    pub fn get_credential(&self, id: &str) -> (r: Option<&Credential>)
        requires
            self.wf(),
        ensures
            match r {
                Some(c) => has_cred(self@.creds, id@) && c@ == self@.creds[cred_idx(
                    self@.creds,
                    id@,
                )] && c@.id == id@,
                None => !has_cred(self@.creds, id@),
            },
    {
        match self.find_cred(id) {
            Some(i) => {
                let c = &self.credentials[i];
                proof {
                    assert(has_cred(self@.creds, id@));
                    let k = cred_idx(self@.creds, id@);
                    assert(0 <= k < self@.creds.len() && self@.creds[k].id == id@);
                    if k < i as int {
                        assert(self@.creds[k].id != self@.creds[i as int].id);
                    }
                    if k > i as int {
                        assert(self@.creds[i as int].id != self@.creds[k].id);
                    }
                }
                Some(c)
            },
            None => None,
        }
    }

    /// Pure lookup: the policy under the id, if any.  Never persists.
    pub fn get_policy(&self, id: &str) -> (r: Option<&Policy>)
        requires
            self.wf(),
        ensures
            match r {
                Some(p) => has_pol(self@.pols, id@) && p@ == self@.pols[pol_idx(self@.pols, id@)]
                    && p@.id == id@,
                None => !has_pol(self@.pols, id@),
            },
    {
        match self.find_pol(id) {
            Some(i) => {
                let p = &self.policies[i];
                proof {
                    assert(has_pol(self@.pols, id@));
                    let k = pol_idx(self@.pols, id@);
                    assert(0 <= k < self@.pols.len() && self@.pols[k].id == id@);
                    if k < i as int {
                        assert(self@.pols[k].id != self@.pols[i as int].id);
                    }
                    if k > i as int {
                        assert(self@.pols[i as int].id != self@.pols[k].id);
                    }
                }
                Some(p)
            },
            None => None,
        }
    }

    /// All credentials, in the store's order.  Never persists.
    pub fn list_credentials(&self) -> (r: Vec<&Credential>)
        ensures
            r@.len() == self@.creds.len(),
            forall|i: int| 0 <= i < r@.len() ==> r@[i]@ == self@.creds[i],
    {
        let n = self.credentials.len();
        let mut out: Vec<&Credential> = Vec::new();
        let mut i: usize = 0;
        while i < n
            invariant
                i <= n,
                n == self.credentials@.len(),
                out@.len() == i,
                forall|j: int| 0 <= j < i ==> out@[j]@ == self@.creds[j],
            decreases n - i,
        {
            out.push(&self.credentials[i]);
            i = i + 1;
        }
        out
    }

    /// All policies, in the store's order.  Never persists.
    pub fn list_policies(&self) -> (r: Vec<&Policy>)
        ensures
            r@.len() == self@.pols.len(),
            forall|i: int| 0 <= i < r@.len() ==> r@[i]@ == self@.pols[i],
    {
        let n = self.policies.len();
        let mut out: Vec<&Policy> = Vec::new();
        let mut i: usize = 0;
        while i < n
            invariant
                i <= n,
                n == self.policies@.len(),
                out@.len() == i,
                forall|j: int| 0 <= j < i ==> out@[j]@ == self@.pols[j],
            decreases n - i,
        {
            out.push(&self.policies[i]);
            i = i + 1;
        }
        out
    }
}

// ---------------------------------------------------------------------------
// Witnesses that a record's encoding fits the machine: every length that the
// well-formedness predicates bound is observed as a real `usize`.
// ---------------------------------------------------------------------------

fn observe_str_encodable(s: &String)
    ensures
        wf_str(s@),
{
    let bytes = s.as_str().as_bytes();
    let len: usize = bytes.len();
    proof {
        assert(bytes@ == encode_utf8(s@));
        assert(encode_utf8(s@).len() == len);
    }
}

fn observe_cred_encodable(c: &Credential)
    ensures
        wf_cred(c@),
{
    observe_str_encodable(&c.id);
    observe_str_encodable(&c.label);
    let n = c.tags.len();
    let mut i: usize = 0;
    while i < n
        invariant
            i <= n,
            n == c.tags@.len(),
            forall|j: int| 0 <= j < i ==> wf_str(#[trigger] strs_view(c.tags@)[j]),
        decreases n - i,
    {
        observe_str_encodable(&c.tags[i]);
        proof {
            assert(strs_view(c.tags@)[i as int] == c.tags@[i as int]@);
        }
        i = i + 1;
    }
    match &c.policy_id {
        Some(p) => observe_str_encodable(p),
        None => {},
    }
    let data_len: usize = c.secret.data.len();
    proof {
        assert(c@.secret.data.len() == data_len);
    }
}

fn observe_policy_encodable(p: &Policy)
    ensures
        wf_policy(p@),
{
    observe_str_encodable(&p.id);
    let hook_count: usize = p.hooks.len();
    proof {
        assert(p@.hooks.len() == hook_count);
    }
    match &p.timezone {
        Some(tz) => observe_str_encodable(tz),
        None => {},
    }
}

// ---------------------------------------------------------------------------
// Uniqueness checks used when rebuilding a store from a container.
// ---------------------------------------------------------------------------

#[verifier::loop_isolation(false)]
fn creds_all_unique(v: &Vec<Credential>) -> (r: bool)
    ensures
        r == creds_unique(creds_view(v@)),
{
    let n = v.len();
    let mut i: usize = 0;
    while i < n
        invariant
            i <= n,
            forall|a: int, b: int|
                0 <= a < b < i ==> creds_view(v@)[a].id != creds_view(v@)[b].id,
        decreases n - i,
    {
        let mut j: usize = 0;
        while j < i
            invariant
                j <= i < n,
                forall|a: int| 0 <= a < j ==> creds_view(v@)[a].id != creds_view(v@)[i as int].id,
            decreases i - j,
        {
            if str_eq(v[j].id.as_str(), v[i].id.as_str()) {
                proof {
                    assert(creds_view(v@)[j as int].id == creds_view(v@)[i as int].id);
                }
                return false;
            }
            j = j + 1;
        }
        i = i + 1;
    }
    true
}

#[verifier::loop_isolation(false)]
fn pols_all_unique(v: &Vec<Policy>) -> (r: bool)
    ensures
        r == pols_unique(pols_view(v@)),
{
    let n = v.len();
    let mut i: usize = 0;
    while i < n
        invariant
            i <= n,
            forall|a: int, b: int| 0 <= a < b < i ==> pols_view(v@)[a].id != pols_view(v@)[b].id,
        decreases n - i,
    {
        let mut j: usize = 0;
        while j < i
            invariant
                j <= i < n,
                forall|a: int| 0 <= a < j ==> pols_view(v@)[a].id != pols_view(v@)[i as int].id,
            decreases i - j,
        {
            if str_eq(v[j].id.as_str(), v[i].id.as_str()) {
                proof {
                    assert(pols_view(v@)[j as int].id == pols_view(v@)[i as int].id);
                }
                return false;
            }
            j = j + 1;
        }
        i = i + 1;
    }
    true
}

/// The container's frame announces more bytes than it holds: shorter than
/// the length field, or shorter than the header length it states.
pub open spec fn container_truncated(b: Seq<u8>) -> bool {
    b.len() < 4 || b.len() - 4 < vstd::bytes::spec_u32_from_le_bytes(b.take(4))
}

/// A well-framed container whose header region is exactly the encoding of
/// this library's format version and some salt, filling the announced header
/// length.  A container that fails this (and is not truncated) is rejected
/// as [`Error::Corrupted`] before any key derivation or decryption.
pub open spec fn header_well_formed(b: Seq<u8>) -> bool {
    &&& !container_truncated(b)
    &&& exists|salt: Seq<u8>|
        {
            let h = #[trigger] enc_header(STORE_VERSION, salt);
            &&& h.len() == vstd::bytes::spec_u32_from_le_bytes(b.take(4))
            &&& h.is_prefix_of(b.skip(4))
        }
}

impl SecretStore {
    /// Serializes the maps into one payload, seals it under the master key
    /// with a fresh random nonce and the header bytes as associated data,
    /// and returns the complete container image for the caller to write
    /// atomically.  Failure leaves nothing changed and is possible only when
    /// the payload overruns the cipher's size bound.
    pub fn save(&self) -> (r: Result<Vec<u8>, Error>)
        requires
            self.wf(),
        ensures
            r matches Ok(b) ==> is_container_for(b@, self@),
            r matches Err(e) ==> e == Error::Crypto,
            enc_payload(self@.creds, self@.pols).len() / 64 < 0xffff_ffff ==> r is Ok,
    {
        let mut header: Vec<u8> = Vec::new();
        enc_header_into(&mut header, STORE_VERSION, self.salt.as_slice());
        let mut payload: Vec<u8> = Vec::new();
        enc_payload_into(&mut payload, &self.credentials, &self.policies);
        proof {
            lemma_auto_spec_u32_to_from_le_bytes();
            lemma_auto_spec_u64_to_from_le_bytes();
            assert(header@ =~= enc_header(STORE_VERSION, self@.salt));
            assert(payload@ =~= enc_payload(self@.creds, self@.pols));
        }
        let sealed = match self.master_key.encrypt(payload.as_slice(), header.as_slice()) {
            Ok(s) => s,
            Err(e) => {
                return Err(e);
            },
        };
        let mut out: Vec<u8> = Vec::new();
        let hlen = header.len() as u32;
        enc_u32_into(&mut out, hlen);
        out.extend_from_slice(header.as_slice());
        out.extend_from_slice(sealed.as_slice());
        proof {
            let h = enc_header(STORE_VERSION, self@.salt);
            let pl = enc_payload(self@.creds, self@.pols);
            let nonce = sealed@.take(24);
            assert(sealed@ =~= nonce + sealed@.skip(24));
            assert(out@ =~= enc_u32(h.len() as u32) + (h + (nonce + sealed@.skip(24))));
            assert(is_sealed_container(out@, self@.salt, self@.key, nonce, self@.creds, self@.pols));
        }
        Ok(out)
    }

    /// A fresh store under the given passphrase: a new random 16-byte salt, a
    /// newly derived key, empty maps, and the first container image to write.
    /// Whether a file may already exist at the destination is the caller's
    /// concern.
    pub fn init(passphrase: &Secret) -> (r: Result<(SecretStore, Vec<u8>), Error>)
        ensures
            r matches Ok(p) ==> {
                &&& p.0.wf()
                &&& p.0@.creds.len() == 0
                &&& p.0@.pols.len() == 0
                &&& p.0@.salt.len() == 16
                &&& p.0@.key == kdf(passphrase@, p.0@.salt)
                &&& is_container_for(p.1@, p.0@)
            },
            r matches Err(e) ==> e == Error::Crypto,
    {
        let derived = match MasterKey::derive_from_passphrase(passphrase, None) {
            Ok(p) => p,
            Err(e) => {
                return Err(e);
            },
        };
        let (master_key, salt) = derived;
        let store = SecretStore {
            master_key,
            salt,
            credentials: Vec::new(),
            policies: Vec::new(),
        };
        proof {
            assert(creds_view(store.credentials@) =~= Seq::<CredentialV>::empty());
            assert(pols_view(store.policies@) =~= Seq::<PolicyV>::empty());
        }
        match store.save() {
            Ok(b) => Ok((store, b)),
            Err(e) => Err(e),
        }
    }

    /// Opens a container image under an already-derived master key: parses
    /// the frame and the plaintext header, decrypts the payload with the raw
    /// header bytes as associated data — so a change to version or salt
    /// invalidates the authentication tag — and rebuilds the maps.
    ///
    /// The second ensures clause owes success: for a container image sealed
    /// under exactly this key over a well-formed state, every failure is
    /// ruled out and the saved state comes back unchanged.
    #[verifier::rlimit(100)]
    pub fn open_with_key(container: &[u8], master_key: MasterKey) -> (r: Result<
        SecretStore,
        Error,
    >)
        requires
            master_key.is_valid(),
        ensures
            r matches Ok(st) ==> {
                &&& st.wf()
                &&& st@.key == master_key@
                &&& is_container_for(container@, st@)
            },
            forall|salt: Seq<u8>, nonce: Seq<u8>, creds: Seq<CredentialV>, pols: Seq<PolicyV>|
                #![trigger is_sealed_container(container@, salt, master_key@, nonce, creds, pols)]
                {
                    &&& is_sealed_container(
                        container@,
                        salt,
                        master_key@,
                        nonce,
                        creds,
                        pols,
                    )
                    &&& salt_ok(salt)
                    &&& wf_payload(creds, pols)
                    &&& creds_unique(creds)
                    &&& pols_unique(pols)
                } ==> (r matches Ok(st) && st@.salt == salt && st@.creds == creds && st@.pols
                    == pols),
            container_truncated(container@) ==> (r matches Err(e) && e == Error::Truncated),
            (r matches Err(e) && e == Error::Truncated) ==> container_truncated(container@),
            !container_truncated(container@) && !header_well_formed(container@) ==> (r matches Err(
                e,
            ) && e == Error::Corrupted),
            r matches Err(e) ==> (e == Error::Truncated || e == Error::Corrupted || e
                == Error::Crypto),
    {
        proof {
            lemma_auto_spec_u32_to_from_le_bytes();
            lemma_auto_spec_u64_to_from_le_bytes();
            assert forall|salt: Seq<u8>, nonce: Seq<u8>, creds: Seq<CredentialV>, pols: Seq<PolicyV>|
                #![trigger is_sealed_container(container@, salt, master_key@, nonce, creds, pols)]
                is_sealed_container(container@, salt, master_key@, nonce, creds, pols)
                    && salt_ok(salt) implies {
                let h = enc_header(STORE_VERSION, salt);
                let pl = enc_payload(creds, pols);
                let ct = aead_seal(master_key@, nonce, h, pl);
                &&& container@.len() == 4 + h.len() + 24 + ct.len()
                &&& enc_u32(h.len() as u32).is_prefix_of(container@.skip(0))
                &&& h.is_prefix_of(container@.skip(4))
                &&& container@.subrange(4, 4 + h.len() as int) == h
                &&& container@.subrange(4 + h.len() as int, container@.len() as int) == nonce + ct
                &&& (nonce + ct).take(24) == nonce
                &&& (nonce + ct).skip(24) == ct
                &&& !container_truncated(container@)
            } by {
                let h = enc_header(STORE_VERSION, salt);
                let pl = enc_payload(creds, pols);
                let ct = aead_seal(master_key@, nonce, h, pl);
                let rest = h + (nonce + ct);
                assert(container@ == enc_u32(h.len() as u32) + rest);
                assert(container@.skip(0) =~= container@);
                lemma_prefix_concat(enc_u32(h.len() as u32), rest, container@);
                lemma_skip_skip(container@, 0, 4);
                lemma_prefix_concat(h, nonce + ct, container@.skip(4));
                assert(container@.subrange(4, 4 + h.len() as int) =~= h);
                assert(container@.subrange(4 + h.len() as int, container@.len() as int) =~= nonce
                    + ct);
                assert((nonce + ct).take(24) =~= nonce);
                assert((nonce + ct).skip(24) =~= ct);
                assert(container@.take(4) =~= enc_u32(h.len() as u32));
            }
        }
        if container.len() < 4 {
            return Err(Error::Truncated);
        }
        let (hlen32, _p4) = match dec_u32(container, 0) {
            Some(x) => x,
            None => {
                proof {
                    let g = vstd::bytes::spec_u32_from_le_bytes(container@.take(4));
                    assert(container@.take(4).len() == 4);
                    assert(enc_u32(g) == container@.take(4));
                    assert(container@.skip(0) =~= container@);
                    assert(container@.subrange(0, 4) =~= container@.take(4));
                    assert(enc_u32(g).is_prefix_of(container@.skip(0)));
                }
                return Err(Error::Truncated);
            },
        };
        let hlen = hlen32 as usize;
        proof {
            assert(container@.subrange(0, 4) =~= container@.take(4));
        }
        if container.len() - 4 < hlen {
            return Err(Error::Truncated);
        }
        let hr = match dec_header(container, 4) {
            Some(x) => x,
            None => {
                return Err(Error::Corrupted);
            },
        };
        let ((version, salt), hend) = hr;
        if hend != 4 + hlen {
            return Err(Error::Corrupted);
        }
        if version != STORE_VERSION {
            return Err(Error::Corrupted);
        }
        proof {
            let h = enc_header(STORE_VERSION, salt@);
            assert(container@.subrange(4, hend as int) == enc_header(version, salt@));
            assert(h.len() == hlen);
            assert(container@.take(4) =~= container@.subrange(0, 4));
            assert(vstd::bytes::spec_u32_from_le_bytes(container@.take(4)) == hlen32);
            assert(h =~= container@.skip(4).subrange(0, h.len() as int));
            assert(h.is_prefix_of(container@.skip(4)));
            assert(header_well_formed(container@));
        }
        if salt.len() < 8 || salt.len() > 64 {
            return Err(Error::Crypto);
        }
        let header_bytes = slice_subrange(container, 4, 4 + hlen);
        let encrypted = slice_subrange(container, 4 + hlen, container.len());
        let plain = match master_key.decrypt(encrypted, header_bytes) {
            Ok(m) => m,
            Err(_) => {
                return Err(Error::Crypto);
            },
        };
        proof {
            assert forall|salt2: Seq<u8>, nonce: Seq<u8>, creds: Seq<CredentialV>, pols: Seq<PolicyV>|
                #![trigger is_sealed_container(container@, salt2, master_key@, nonce, creds, pols)]
                is_sealed_container(container@, salt2, master_key@, nonce, creds, pols)
                    && salt_ok(salt2) && wf_payload(creds, pols) implies {
                &&& plain@ == enc_payload(creds, pols)
                &&& enc_creds(creds).is_prefix_of(plain@.skip(0))
                &&& enc_pols(pols).is_prefix_of(plain@.skip(enc_creds(creds).len() as int))
            } by {
                let h = enc_header(STORE_VERSION, salt2);
                let pl = enc_payload(creds, pols);
                let ct = aead_seal(master_key@, nonce, h, pl);
                assert(header_bytes@ == h);
                assert(salt@ == salt2);
                assert(encrypted@ == nonce + ct);
                assert(encrypted@.take(24) == nonce);
                assert(encrypted@.skip(24) == ct);
                assert(plain@ == pl);
                assert(plain@.skip(0) =~= plain@);
                lemma_prefix_concat(enc_creds(creds), enc_pols(pols), plain@);
            }
        }
        let (credentials, q1) = match dec_creds(plain.as_slice(), 0) {
            Some(x) => x,
            None => {
                return Err(Error::Corrupted);
            },
        };
        let (policies, q2) = match dec_pols(plain.as_slice(), q1) {
            Some(x) => x,
            None => {
                return Err(Error::Corrupted);
            },
        };
        if q2 != plain.len() {
            return Err(Error::Corrupted);
        }
        if !creds_all_unique(&credentials) {
            return Err(Error::Corrupted);
        }
        if !pols_all_unique(&policies) {
            return Err(Error::Corrupted);
        }
        let store = SecretStore { master_key, salt, credentials, policies };
        proof {
            let h = enc_header(STORE_VERSION, store@.salt);
            let pl = plain@;
            let nonce = encrypted@.take(24);
            assert(plain@ =~= plain@.subrange(0, q1 as int) + plain@.subrange(
                q1 as int,
                plain@.len() as int,
            ));
            assert(pl == enc_payload(store@.creds, store@.pols));
            assert(encrypted@ =~= nonce + encrypted@.skip(24));
            assert(container@ =~= container@.take(4) + (header_bytes@ + (nonce + encrypted@.skip(
                24,
            ))));
            assert(header_bytes@ == enc_header(version, salt@));
            assert(container@.take(4) =~= container@.subrange(0, 4));
            assert(is_sealed_container(
                container@,
                store@.salt,
                store@.key,
                nonce,
                store@.creds,
                store@.pols,
            ));
        }
        Ok(store)
    }

    /// Opens a container image with a passphrase: reads the salt from the
    /// plaintext header, re-derives the master key from passphrase and salt,
    /// and hands over to [`Self::open_with_key`].  A wrong passphrase and a
    /// tampered container fail with the same generic [`Error::Crypto`], by
    /// design; the one other failure the derivation itself can add is an
    /// allocation failure inside the memory-hard hash.
    #[verifier::rlimit(100)]
    pub fn open(container: &[u8], passphrase: &Secret) -> (r: Result<SecretStore, Error>)
        ensures
            r matches Ok(st) ==> {
                &&& st.wf()
                &&& st@.key == kdf(passphrase@, st@.salt)
                &&& is_container_for(container@, st@)
            },
            forall|salt: Seq<u8>, nonce: Seq<u8>, creds: Seq<CredentialV>, pols: Seq<PolicyV>|
                #![trigger is_sealed_container(container@, salt, kdf(passphrase@, salt), nonce, creds, pols)]
                {
                    &&& is_sealed_container(
                        container@,
                        salt,
                        kdf(passphrase@, salt),
                        nonce,
                        creds,
                        pols,
                    )
                    &&& salt_ok(salt)
                    &&& wf_payload(creds, pols)
                    &&& creds_unique(creds)
                    &&& pols_unique(pols)
                } ==> match r {
                    Ok(st) => st@.salt == salt && st@.creds == creds && st@.pols == pols,
                    Err(e) => e == Error::Crypto,
                },
            container_truncated(container@) ==> (r matches Err(e) && e == Error::Truncated),
            (r matches Err(e) && e == Error::Truncated) ==> container_truncated(container@),
            !container_truncated(container@) && !header_well_formed(container@) ==> (r matches Err(
                e,
            ) && e == Error::Corrupted),
            r matches Err(e) ==> (e == Error::Truncated || e == Error::Corrupted || e
                == Error::Crypto),
    {
        proof {
            lemma_auto_spec_u32_to_from_le_bytes();
            lemma_auto_spec_u64_to_from_le_bytes();
            assert forall|salt: Seq<u8>, nonce: Seq<u8>, creds: Seq<CredentialV>, pols: Seq<PolicyV>|
                #![trigger is_sealed_container(container@, salt, kdf(passphrase@, salt), nonce, creds, pols)]
                is_sealed_container(container@, salt, kdf(passphrase@, salt), nonce, creds, pols)
                    && salt_ok(salt) implies {
                let h = enc_header(STORE_VERSION, salt);
                &&& container@.len() >= 4 + h.len()
                &&& enc_u32(h.len() as u32).is_prefix_of(container@.skip(0))
                &&& h.is_prefix_of(container@.skip(4))
                &&& container@.take(4) == enc_u32(h.len() as u32)
                &&& !container_truncated(container@)
            } by {
                let h = enc_header(STORE_VERSION, salt);
                let pl = enc_payload(creds, pols);
                let ct = aead_seal(kdf(passphrase@, salt), nonce, h, pl);
                let rest = h + (nonce + ct);
                assert(container@ == enc_u32(h.len() as u32) + rest);
                assert(container@.skip(0) =~= container@);
                lemma_prefix_concat(enc_u32(h.len() as u32), rest, container@);
                lemma_skip_skip(container@, 0, 4);
                assert(container@.take(4) =~= enc_u32(h.len() as u32));
            }
        }
        if container.len() < 4 {
            return Err(Error::Truncated);
        }
        let (hlen32, _p4) = match dec_u32(container, 0) {
            Some(x) => x,
            None => {
                proof {
                    let g = vstd::bytes::spec_u32_from_le_bytes(container@.take(4));
                    assert(container@.take(4).len() == 4);
                    assert(enc_u32(g) == container@.take(4));
                    assert(container@.skip(0) =~= container@);
                    assert(container@.subrange(0, 4) =~= container@.take(4));
                    assert(enc_u32(g).is_prefix_of(container@.skip(0)));
                }
                return Err(Error::Truncated);
            },
        };
        let hlen = hlen32 as usize;
        proof {
            assert(container@.subrange(0, 4) =~= container@.take(4));
        }
        if container.len() - 4 < hlen {
            return Err(Error::Truncated);
        }
        let hr = match dec_header(container, 4) {
            Some(x) => x,
            None => {
                return Err(Error::Corrupted);
            },
        };
        let ((version, salt), hend) = hr;
        if hend != 4 + hlen {
            return Err(Error::Corrupted);
        }
        if version != STORE_VERSION {
            return Err(Error::Corrupted);
        }
        proof {
            let h = enc_header(STORE_VERSION, salt@);
            assert(container@.subrange(4, hend as int) == enc_header(version, salt@));
            assert(h.len() == hlen);
            assert(container@.take(4) =~= container@.subrange(0, 4));
            assert(vstd::bytes::spec_u32_from_le_bytes(container@.take(4)) == hlen32);
            assert(h =~= container@.skip(4).subrange(0, h.len() as int));
            assert(h.is_prefix_of(container@.skip(4)));
            assert(header_well_formed(container@));
        }
        if salt.len() < 8 || salt.len() > 64 {
            return Err(Error::Crypto);
        }
        let derived = match MasterKey::derive_from_passphrase(passphrase, Some(salt.as_slice())) {
            Ok(p) => p,
            Err(_) => {
                return Err(Error::Crypto);
            },
        };
        let (master_key, _salt_copy) = derived;
        let ghost derived_key = master_key@;
        let r2 = Self::open_with_key(container, master_key);
        proof {
            assert forall|salt2: Seq<u8>, nonce: Seq<u8>, creds: Seq<CredentialV>, pols: Seq<PolicyV>|
                #![trigger is_sealed_container(container@, salt2, kdf(passphrase@, salt2), nonce, creds, pols)]
                is_sealed_container(container@, salt2, kdf(passphrase@, salt2), nonce, creds, pols)
                    && salt_ok(salt2) && wf_payload(creds, pols) && creds_unique(creds)
                    && pols_unique(pols) implies (r2 matches Ok(st) && st@.salt == salt2
                && st@.creds == creds && st@.pols == pols) by {
                assert(salt@ == salt2);
                assert(derived_key == kdf(passphrase@, salt2));
                assert(is_sealed_container(container@, salt2, derived_key, nonce, creds, pols));
            }
            if r2 is Ok {
                let st = r2->Ok_0;
                let nonce = choose|nonce: Seq<u8>|
                    is_sealed_container(
                        container@,
                        st@.salt,
                        st@.key,
                        nonce,
                        st@.creds,
                        st@.pols,
                    );
                let h = enc_header(STORE_VERSION, st@.salt);
                let pl = enc_payload(st@.creds, st@.pols);
                let ct = aead_seal(st@.key, nonce, h, pl);
                let rest = h + (nonce + ct);
                assert(container@ == enc_u32(h.len() as u32) + rest);
                assert(container@.take(4) =~= enc_u32(h.len() as u32));
                assert(container@.subrange(4, 4 + h.len() as int) =~= h);
                assert(container@.subrange(0, 4) =~= container@.take(4));
                assert(vstd::bytes::spec_u32_from_le_bytes(enc_u32(hlen32)) == hlen32);
                assert(vstd::bytes::spec_u32_from_le_bytes(enc_u32(h.len() as u32)) == h.len()
                    as u32);
                assert(hlen32 == h.len() as u32);
                assert(hlen == h.len());
                assert(container@.subrange(4, hend as int) == enc_header(version, salt@));
                assert(enc_header(version, salt@) == enc_header(STORE_VERSION, st@.salt));
                crate::codec::lemma_enc_header_injective(
                    version,
                    salt@,
                    STORE_VERSION,
                    st@.salt,
                );
                assert(st@.salt == salt@);
            }
        }
        r2
    }
}

/// The credential after one use: counter bumped (saturating at the top) and
/// the update stamp refreshed to `t`.
pub open spec fn bump_usage(c: CredentialV, t: i64) -> CredentialV {
    CredentialV {
        usage_counter: if c.usage_counter == u64::MAX {
            u64::MAX
        } else {
            (c.usage_counter + 1) as u64
        },
        updated_at: t,
        ..c
    }
}

impl SecretStore {
    /// Inserts the credential — a record under the same id is overwritten in
    /// place, a fresh id is appended — and seals the new state.  The returned
    /// image must be written for the change to be durable; on failure the
    /// in-memory change has been applied but nothing durable has, and the
    /// error is the flag that memory and disk have diverged.
    pub fn add_credential(&mut self, cred: Credential) -> (r: Result<Vec<u8>, Error>)
        requires
            old(self).wf(),
        ensures
            final(self).wf(),
            final(self)@.salt == old(self)@.salt,
            final(self)@.key == old(self)@.key,
            final(self)@.pols == old(self)@.pols,
            final(self)@.creds == upsert_cred(old(self)@.creds, cred@),
            r matches Ok(b) ==> is_container_for(b@, final(self)@),
            r matches Err(e) ==> e == Error::Crypto,
            enc_payload(final(self)@.creds, final(self)@.pols).len() / 64 < 0xffff_ffff ==> r
                is Ok,
    {
        observe_cred_encodable(&cred);
        let ghost oldcreds = self@.creds;
        let ghost cv = cred@;
        let idx = self.find_cred(cred.id.as_str());
        match idx {
            Some(i) => {
                proof {
                    assert(oldcreds[i as int].id == cv.id);
                    assert(has_cred(oldcreds, cv.id));
                    let k = cred_idx(oldcreds, cv.id);
                    assert(0 <= k < oldcreds.len() && oldcreds[k].id == cv.id);
                    if k < i as int {
                        assert(oldcreds[k].id != oldcreds[i as int].id);
                    }
                    if k > i as int {
                        assert(oldcreds[i as int].id != oldcreds[k].id);
                    }
                }
                self.credentials[i] = cred;
                proof {
                    assert(self@.creds =~= oldcreds.update(i as int, cv));
                    assert(self@.creds == upsert_cred(oldcreds, cv));
                    assert forall|a: int, b: int| 0 <= a < b < self@.creds.len() implies self@
                        .creds[a].id != self@.creds[b].id by {
                        assert(oldcreds[a].id != oldcreds[b].id);
                        assert(self@.creds[a].id == oldcreds[a].id);
                        assert(self@.creds[b].id == oldcreds[b].id);
                    }
                    assert forall|a: int| 0 <= a < self@.creds.len() implies wf_cred(
                        #[trigger] self@.creds[a],
                    ) by {
                        if a != i as int {
                            assert(wf_cred(oldcreds[a]));
                        }
                    }
                }
            },
            None => {
                self.credentials.push(cred);
                proof {
                    vstd::std_specs::vec::axiom_spec_len(&self.credentials);
                    assert(self@.creds =~= oldcreds.push(cv));
                    assert(!has_cred(oldcreds, cv.id));
                    assert(self@.creds == upsert_cred(oldcreds, cv));
                    assert forall|a: int, b: int| 0 <= a < b < self@.creds.len() implies self@
                        .creds[a].id != self@.creds[b].id by {
                        if b < oldcreds.len() {
                            assert(oldcreds[a].id != oldcreds[b].id);
                        } else {
                            assert(self@.creds[b] == cv);
                            if self@.creds[a].id == cv.id {
                                assert(oldcreds[a].id == cv.id);
                                assert(has_cred(oldcreds, cv.id));
                            }
                        }
                    }
                    assert forall|a: int| 0 <= a < self@.creds.len() implies wf_cred(
                        #[trigger] self@.creds[a],
                    ) by {
                        if a < oldcreds.len() {
                            assert(wf_cred(oldcreds[a]));
                        }
                    }
                }
            },
        }
        self.save()
    }

    /// Inserts or overwrites the policy, exactly as [`Self::add_credential`]
    /// does a credential, and seals the new state.
    pub fn add_policy(&mut self, policy: Policy) -> (r: Result<Vec<u8>, Error>)
        requires
            old(self).wf(),
        ensures
            final(self).wf(),
            final(self)@.salt == old(self)@.salt,
            final(self)@.key == old(self)@.key,
            final(self)@.creds == old(self)@.creds,
            final(self)@.pols == upsert_pol(old(self)@.pols, policy@),
            r matches Ok(b) ==> is_container_for(b@, final(self)@),
            r matches Err(e) ==> e == Error::Crypto,
            enc_payload(final(self)@.creds, final(self)@.pols).len() / 64 < 0xffff_ffff ==> r
                is Ok,
    {
        observe_policy_encodable(&policy);
        let ghost oldpols = self@.pols;
        let ghost pv = policy@;
        let idx = self.find_pol(policy.id.as_str());
        match idx {
            Some(i) => {
                proof {
                    assert(oldpols[i as int].id == pv.id);
                    assert(has_pol(oldpols, pv.id));
                    let k = pol_idx(oldpols, pv.id);
                    assert(0 <= k < oldpols.len() && oldpols[k].id == pv.id);
                    if k < i as int {
                        assert(oldpols[k].id != oldpols[i as int].id);
                    }
                    if k > i as int {
                        assert(oldpols[i as int].id != oldpols[k].id);
                    }
                }
                self.policies[i] = policy;
                proof {
                    assert(self@.pols =~= oldpols.update(i as int, pv));
                    assert(self@.pols == upsert_pol(oldpols, pv));
                    assert forall|a: int, b: int| 0 <= a < b < self@.pols.len() implies self@
                        .pols[a].id != self@.pols[b].id by {
                        assert(oldpols[a].id != oldpols[b].id);
                        assert(self@.pols[a].id == oldpols[a].id);
                        assert(self@.pols[b].id == oldpols[b].id);
                    }
                    assert forall|a: int| 0 <= a < self@.pols.len() implies wf_policy(
                        #[trigger] self@.pols[a],
                    ) by {
                        if a != i as int {
                            assert(wf_policy(oldpols[a]));
                        }
                    }
                }
            },
            None => {
                self.policies.push(policy);
                proof {
                    vstd::std_specs::vec::axiom_spec_len(&self.policies);
                    assert(self@.pols =~= oldpols.push(pv));
                    assert(!has_pol(oldpols, pv.id));
                    assert(self@.pols == upsert_pol(oldpols, pv));
                    assert forall|a: int, b: int| 0 <= a < b < self@.pols.len() implies self@
                        .pols[a].id != self@.pols[b].id by {
                        if b < oldpols.len() {
                            assert(oldpols[a].id != oldpols[b].id);
                        } else {
                            assert(self@.pols[b] == pv);
                            if self@.pols[a].id == pv.id {
                                assert(oldpols[a].id == pv.id);
                                assert(has_pol(oldpols, pv.id));
                            }
                        }
                    }
                    assert forall|a: int| 0 <= a < self@.pols.len() implies wf_policy(
                        #[trigger] self@.pols[a],
                    ) by {
                        if a < oldpols.len() {
                            assert(wf_policy(oldpols[a]));
                        }
                    }
                }
            },
        }
        self.save()
    }

    /// Removes the credential under the id, if present, and seals the new
    /// state.  Removing an absent id is not an error: it leaves the maps
    /// unchanged and, as nothing changed, hands back no image to write.
    pub fn remove_credential(&mut self, id: &str) -> (r: Result<Option<Vec<u8>>, Error>)
        requires
            old(self).wf(),
        ensures
            final(self).wf(),
            final(self)@.salt == old(self)@.salt,
            final(self)@.key == old(self)@.key,
            final(self)@.pols == old(self)@.pols,
            final(self)@.creds == remove_cred(old(self)@.creds, id@),
            !has_cred(old(self)@.creds, id@) ==> (r matches Ok(o) && o is None && final(self)@
                == old(self)@),
            r matches Ok(Some(b)) ==> is_container_for(b@, final(self)@) && has_cred(
                old(self)@.creds,
                id@,
            ),
            r matches Err(e) ==> e == Error::Crypto,
            enc_payload(final(self)@.creds, final(self)@.pols).len() / 64 < 0xffff_ffff ==> r
                is Ok,
    {
        let ghost oldcreds = self@.creds;
        let idx = self.find_cred(id);
        match idx {
            Some(i) => {
                proof {
                    assert(has_cred(oldcreds, id@));
                    let k = cred_idx(oldcreds, id@);
                    assert(0 <= k < oldcreds.len() && oldcreds[k].id == id@);
                    if k < i as int {
                        assert(oldcreds[k].id != oldcreds[i as int].id);
                    }
                    if k > i as int {
                        assert(oldcreds[i as int].id != oldcreds[k].id);
                    }
                }
                self.credentials.remove(i);
                proof {
                    assert(self@.creds =~= oldcreds.remove(i as int));
                    assert(self@.creds == remove_cred(oldcreds, id@));
                    assert forall|a: int, b: int| 0 <= a < b < self@.creds.len() implies self@
                        .creds[a].id != self@.creds[b].id by {
                        let a0 = if a < i as int { a } else { a + 1 };
                        let b0 = if b < i as int { b } else { b + 1 };
                        assert(self@.creds[a] == oldcreds[a0]);
                        assert(self@.creds[b] == oldcreds[b0]);
                        assert(oldcreds[a0].id != oldcreds[b0].id);
                    }
                    assert forall|a: int| 0 <= a < self@.creds.len() implies wf_cred(
                        #[trigger] self@.creds[a],
                    ) by {
                        let a0 = if a < i as int { a } else { a + 1 };
                        assert(self@.creds[a] == oldcreds[a0]);
                        assert(wf_cred(oldcreds[a0]));
                    }
                }
            },
            None => {
                return Ok(None);
            },
        }
        match self.save() {
            Ok(b) => Ok(Some(b)),
            Err(e) => Err(e),
        }
    }

    /// Removes the policy under the id, if present, and seals the new state;
    /// credentials that referenced it keep their dangling reference, which
    /// lookups treat as "no policy enforced".  As with
    /// [`Self::remove_credential`], an absent id changes nothing and hands
    /// back no image.
    pub fn remove_policy(&mut self, id: &str) -> (r: Result<Option<Vec<u8>>, Error>)
        requires
            old(self).wf(),
        ensures
            final(self).wf(),
            final(self)@.salt == old(self)@.salt,
            final(self)@.key == old(self)@.key,
            final(self)@.creds == old(self)@.creds,
            final(self)@.pols == remove_pol(old(self)@.pols, id@),
            !has_pol(old(self)@.pols, id@) ==> (r matches Ok(o) && o is None && final(self)@
                == old(self)@),
            r matches Ok(Some(b)) ==> is_container_for(b@, final(self)@) && has_pol(
                old(self)@.pols,
                id@,
            ),
            r matches Err(e) ==> e == Error::Crypto,
            enc_payload(final(self)@.creds, final(self)@.pols).len() / 64 < 0xffff_ffff ==> r
                is Ok,
    {
        let ghost oldpols = self@.pols;
        let idx = self.find_pol(id);
        match idx {
            Some(i) => {
                proof {
                    assert(has_pol(oldpols, id@));
                    let k = pol_idx(oldpols, id@);
                    assert(0 <= k < oldpols.len() && oldpols[k].id == id@);
                    if k < i as int {
                        assert(oldpols[k].id != oldpols[i as int].id);
                    }
                    if k > i as int {
                        assert(oldpols[i as int].id != oldpols[k].id);
                    }
                }
                self.policies.remove(i);
                proof {
                    assert(self@.pols =~= oldpols.remove(i as int));
                    assert(self@.pols == remove_pol(oldpols, id@));
                    assert forall|a: int, b: int| 0 <= a < b < self@.pols.len() implies self@
                        .pols[a].id != self@.pols[b].id by {
                        let a0 = if a < i as int { a } else { a + 1 };
                        let b0 = if b < i as int { b } else { b + 1 };
                        assert(self@.pols[a] == oldpols[a0]);
                        assert(self@.pols[b] == oldpols[b0]);
                        assert(oldpols[a0].id != oldpols[b0].id);
                    }
                    assert forall|a: int| 0 <= a < self@.pols.len() implies wf_policy(
                        #[trigger] self@.pols[a],
                    ) by {
                        let a0 = if a < i as int { a } else { a + 1 };
                        assert(self@.pols[a] == oldpols[a0]);
                        assert(wf_policy(oldpols[a0]));
                    }
                }
            },
            None => {
                return Ok(None);
            },
        }
        match self.save() {
            Ok(b) => Ok(Some(b)),
            Err(e) => Err(e),
        }
    }

    /// Bumps the credential's usage counter (saturating at the top of its
    /// range), refreshes its update stamp, and seals the new state.  Fails
    /// with [`Error::NotFound`], changing nothing, when the id is absent.
    /// Only this operation changes usage counters: the evaluation engine
    /// never does.
    pub fn increment_usage(&mut self, id: &str) -> (r: Result<Vec<u8>, Error>)
        requires
            old(self).wf(),
        ensures
            final(self).wf(),
            final(self)@.salt == old(self)@.salt,
            final(self)@.key == old(self)@.key,
            final(self)@.pols == old(self)@.pols,
            !has_cred(old(self)@.creds, id@) ==> final(self)@ == old(self)@ && (r matches Err(e)
                && e == Error::NotFound),
            has_cred(old(self)@.creds, id@) ==> {
                &&& exists|t: i64|
                    final(self)@.creds == old(self)@.creds.update(
                        cred_idx(old(self)@.creds, id@),
                        #[trigger] bump_usage(
                            old(self)@.creds[cred_idx(old(self)@.creds, id@)],
                            t,
                        ),
                    )
                &&& (r matches Err(e) ==> e == Error::Crypto)
            },
            r matches Ok(b) ==> is_container_for(b@, final(self)@) && has_cred(
                old(self)@.creds,
                id@,
            ),
            has_cred(old(self)@.creds, id@) && enc_payload(
                final(self)@.creds,
                final(self)@.pols,
            ).len() / 64 < 0xffff_ffff ==> r is Ok,
    {
        let ghost oldcreds = self@.creds;
        let idx = self.find_cred(id);
        match idx {
            Some(i) => {
                proof {
                    assert(has_cred(oldcreds, id@));
                    let k = cred_idx(oldcreds, id@);
                    assert(0 <= k < oldcreds.len() && oldcreds[k].id == id@);
                    if k < i as int {
                        assert(oldcreds[k].id != oldcreds[i as int].id);
                    }
                    if k > i as int {
                        assert(oldcreds[i as int].id != oldcreds[k].id);
                    }
                }
                let now = now_timestamp();
                let current = self.credentials[i].usage_counter;
                let bumped = if current == u64::MAX {
                    u64::MAX
                } else {
                    current + 1
                };
                let slot = &mut self.credentials[i];
                slot.usage_counter = bumped;
                slot.updated_at = now;
                proof {
                    assert(self@.creds =~= oldcreds.update(
                        i as int,
                        bump_usage(oldcreds[i as int], now),
                    ));
                    assert forall|a: int, b: int| 0 <= a < b < self@.creds.len() implies self@
                        .creds[a].id != self@.creds[b].id by {
                        assert(oldcreds[a].id != oldcreds[b].id);
                        assert(self@.creds[a].id == oldcreds[a].id);
                        assert(self@.creds[b].id == oldcreds[b].id);
                    }
                    assert forall|a: int| 0 <= a < self@.creds.len() implies wf_cred(
                        #[trigger] self@.creds[a],
                    ) by {
                        assert(wf_cred(oldcreds[a]));
                        if a == i as int {
                            assert(self@.creds[a] == bump_usage(oldcreds[a], now));
                        }
                    }
                }
                self.save()
            },
            None => Err(Error::NotFound),
        }
    }
}

/// The round-trip law.  `save` guarantees `is_container_for(b, st)` for the
/// state it sealed; this lemma unfolds that guarantee into the exact premise
/// of `open`'s completeness clause, for the key derived from the store's own
/// passphrase.  Together the two contracts say: opening a saved image with
/// the passphrase that the store's key was derived from reproduces the saved
/// credential and policy maps and salt exactly, or reports the generic
/// crypto failure — never a different state.
pub proof fn lemma_save_open_round_trip(b: Seq<u8>, st: SecretStoreV, pass: Seq<u8>)
    requires
        is_container_for(b, st),
        st.key == kdf(pass, st.salt),
    ensures
        exists|nonce: Seq<u8>|
            is_sealed_container(b, st.salt, kdf(pass, st.salt), nonce, st.creds, st.pols),
{
    let nonce = choose|nonce: Seq<u8>|
        is_sealed_container(b, st.salt, st.key, nonce, st.creds, st.pols);
    assert(is_sealed_container(b, st.salt, kdf(pass, st.salt), nonce, st.creds, st.pols));
}

} // verus!
