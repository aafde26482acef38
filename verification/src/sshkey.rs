//! SSH public keys, as the `ssh-key` crate reads them.

use ssh_key::{HashAlg, PublicKey};
use vstd::prelude::*;
use crate::util::b64_of;

verus! {

/// A public key that was read from its OpenSSH text.
#[derive(Debug, PartialEq, Eq)]
pub struct OpensshKey {
    pub algorithm: String,
    /// `SHA256:` and the digest in base64.
    pub fingerprint: String,
    /// The SHA-256 digest of the key.
    pub digest: [u8; 32],
    /// The key written as OpenSSH text again.
    pub canonical: Option<String>,
}

/// What an OpenSSH public key says.
pub ghost struct KeyFacts {
    pub algorithm: Seq<char>,
    pub digest: Seq<u8>,
    pub canonical: Option<Seq<char>>,
}

impl View for OpensshKey {
    type V = KeyFacts;

    open spec fn view(&self) -> KeyFacts {
        KeyFacts {
            algorithm: self.algorithm@,
            digest: self.digest@,
            canonical: match self.canonical {
                Some(text) => Some(text@),
                None => None,
            },
        }
    }
}

/// The public key that a text holds, if it holds one.
pub uninterp spec fn openssh_key(text: Seq<char>) -> Option<KeyFacts>;

/// Calls `PublicKey::from_openssh`, and `algorithm`, `fingerprint` and
/// `to_openssh` on the key. Trusted: what comes of it depends on the text
/// alone, and the fingerprint is the SHA-256 digest in standard base64 without
/// padding, after `SHA256:`.
#[verifier::external_body]
pub(crate) fn read_openssh(text: &str) -> (r: Option<OpensshKey>)
    ensures
        match r {
            Some(key) => {
                &&& openssh_key(text@) == Some(key@)
                &&& key.fingerprint@ == "SHA256:"@ + b64_of(key.digest@, false, false)
            },
            None => openssh_key(text@) is None,
        },
{
    let key = PublicKey::from_openssh(text).ok()?;
    let fingerprint = key.fingerprint(HashAlg::Sha256);
    Some(OpensshKey {
        algorithm: key.algorithm().as_str().to_owned(),
        fingerprint: fingerprint.to_string(),
        digest: fingerprint.sha256().expect("a SHA-256 fingerprint"),
        canonical: key.to_openssh().ok(),
    })
}

/// A key says its algorithm, its digest and the line it is written as.
pub proof fn keys_say_what_they_are(key: OpensshKey)
    ensures
        key@.algorithm == key.algorithm@,
        key@.digest == key.digest@,
        key@.canonical is Some <==> key.canonical is Some,
        key.canonical matches Some(line) ==> key@.canonical == Some(line@),
{
}

} // verus!
