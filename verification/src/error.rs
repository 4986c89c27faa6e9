use vstd::prelude::*;

verus! {

/// The failure kinds the library reports.  A policy denial is not among them:
/// a denying verdict is a normal, successful evaluation result.
#[derive(Clone, Copy, Debug, PartialEq, Eq, Structural)]
pub enum Error {
    /// The container ends before its length fields say it should.
    Truncated,
    /// The header, or the payload after successful decryption, does not
    /// decode to a well-formed store.
    Corrupted,
    /// Key derivation or authenticated decryption failed: a wrong passphrase
    /// and a tampered container are indistinguishable by design.
    Crypto,
    /// No credential with the given id.
    NotFound,
}

impl Error {
    pub open spec fn spec_message(self) -> Seq<char> {
        match self {
            Error::Truncated => "store container is truncated"@,
            Error::Corrupted => "store container is corrupted"@,
            Error::Crypto => "decryption failed: wrong passphrase or tampered store"@,
            Error::NotFound => "credential not found"@,
        }
    }

    /// A short human-readable description of the failure.
    pub fn message(&self) -> (r: &'static str)
        ensures
            r@ == self.spec_message(),
    {
        match self {
            Error::Truncated => "store container is truncated",
            Error::Corrupted => "store container is corrupted",
            Error::Crypto => "decryption failed: wrong passphrase or tampered store",
            Error::NotFound => "credential not found",
        }
    }
}

} // verus!
