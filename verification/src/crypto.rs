//! The primitives under the handshake, each one a call into the crate that
//! implements it.

use chacha20poly1305::aead::{Aead, KeyInit};
use chacha20poly1305::{ChaCha20Poly1305, Key, Nonce};
use hkdf::Hkdf;
use sha2::Sha256;
use subtle::ConstantTimeEq;
use vstd::prelude::*;
use x25519_dalek::{PublicKey, StaticSecret};

verus! {

/// The bytes an HKDF-SHA256 call yields.
pub uninterp spec fn hkdf_sha256_okm(
    salt: Seq<u8>,
    ikm: Seq<u8>,
    info: Seq<u8>,
    len: nat,
) -> Seq<u8>;

/// What ChaCha20-Poly1305 seals a message as, without associated data.
pub uninterp spec fn chacha_sealed(key: Seq<u8>, nonce: Seq<u8>, plain: Seq<u8>) -> Seq<u8>;

/// What ChaCha20-Poly1305 opens a sealed message to, if its tag is right.
pub uninterp spec fn chacha_opened(key: Seq<u8>, nonce: Seq<u8>, sealed: Seq<u8>) -> Option<
    Seq<u8>,
>;

/// The X25519 public key of a secret.
pub uninterp spec fn x25519_public(secret: Seq<u8>) -> Seq<u8>;

/// The X25519 secret shared between a secret and another's public key.
pub uninterp spec fn x25519_shared(secret: Seq<u8>, public: Seq<u8>) -> Seq<u8>;

/// The longest message that ChaCha20's block counter has room for.
pub open spec fn max_plain() -> nat {
    274_877_906_816
}

/// `n` zero bytes.
pub open spec fn zeros(n: nat) -> Seq<u8> {
    Seq::new(n, |i: int| 0u8)
}

/// Calls `Hkdf::<Sha256>::new` and `expand`. Trusted: the `len` bytes depend
/// on the four arguments alone.
#[verifier::external_body]
pub(crate) fn hkdf_sha256(salt: &[u8], ikm: &[u8], info: &[u8], len: usize) -> (r: Vec<u8>)
    requires
        len <= 8160,
    ensures
        r@ == hkdf_sha256_okm(salt@, ikm@, info@, len as nat),
        r@.len() == len,
{
    let mut okm = vec![0u8; len];
    Hkdf::<Sha256>::new(Some(salt), ikm).expand(info, &mut okm).expect("a valid output length");
    okm
}

/// Calls `ChaCha20Poly1305::encrypt`. Trusted: the result depends on key,
/// nonce and message alone, is sixteen bytes longer than the message, and
/// opens to the message.
#[verifier::external_body]
pub(crate) fn chacha_seal(key: &[u8; 32], nonce: &[u8; 12], plain: &[u8]) -> (r: Vec<u8>)
    requires
        plain@.len() <= max_plain(),
    ensures
        r@ == chacha_sealed(key@, nonce@, plain@),
        r@.len() == plain@.len() + 16,
        chacha_opened(key@, nonce@, r@) == Some(plain@),
{
    let cipher = ChaCha20Poly1305::new(Key::from_slice(key));
    cipher.encrypt(Nonce::from_slice(nonce), plain).expect("the message is not too long")
}

/// Calls `ChaCha20Poly1305::decrypt`. Trusted: the result depends on key,
/// nonce and sealed message alone, and only what sealing a message yields
/// opens to that message.
#[verifier::external_body]
pub(crate) fn chacha_open(key: &[u8; 32], nonce: &[u8; 12], sealed: &[u8]) -> (r: Option<Vec<u8>>)
    requires
        sealed@.len() <= max_plain() + 16,
    ensures
        match r {
            Some(plain) => chacha_opened(key@, nonce@, sealed@) == Some(plain@) && sealed@
                == chacha_sealed(key@, nonce@, plain@) && sealed@.len() == plain@.len() + 16,
            None => chacha_opened(key@, nonce@, sealed@) is None,
        },
{
    let cipher = ChaCha20Poly1305::new(Key::from_slice(key));
    cipher.decrypt(Nonce::from_slice(nonce), sealed).ok()
}

/// Calls `PublicKey::from` on a `StaticSecret`. Trusted: the key depends on
/// the secret alone, and two parties who hold each other's public key share
/// one secret.
#[verifier::external_body]
pub(crate) fn public_key(secret: &[u8; 32]) -> (r: [u8; 32])
    ensures
        r@ == x25519_public(secret@),
        forall|other: Seq<u8>|
            other.len() == 32 ==> x25519_shared(other, r@) == #[trigger] x25519_shared(
                secret@,
                x25519_public(other),
            ),
{
    PublicKey::from(&StaticSecret::from(*secret)).to_bytes()
}

/// Calls `StaticSecret::diffie_hellman` and `SharedSecret::was_contributory`.
/// Trusted: the shared bytes depend on the secret and the public key alone,
/// and the exchange was contributory unless those bytes are all zero.
#[verifier::external_body]
pub(crate) fn shared_secret(secret: &[u8; 32], public: &[u8; 32]) -> (r: ([u8; 32], bool))
    ensures
        r.0@ == x25519_shared(secret@, public@),
        r.1 <==> r.0@ != zeros(32),
{
    let shared = StaticSecret::from(*secret).diffie_hellman(&PublicKey::from(*public));
    (shared.to_bytes(), shared.was_contributory())
}

/// Calls `ConstantTimeEq::ct_eq` on two byte slices. Trusted: it tells whether
/// they hold the same bytes.
#[verifier::external_body]
pub(crate) fn equal_in_constant_time(a: &[u8], b: &[u8]) -> (r: bool)
    ensures
        r == (a@ == b@),
{
    a.ct_eq(b).into()
}

/// Messages of up to 64 bytes for all but two of 2^32 blocks can be sealed.
pub proof fn messages_of_many_blocks_can_be_sealed()
    ensures
        max_plain() == 64 * (0x1_0000_0000 - 2),
{
}

} // verus!
