//! The replica's keys: its own Ed25519 key, which signs exported heads, and
//! the exporter's public key, which signs requests to prune the chain.
//!
//! The replica's key is held as its PKCS#8 document. Ed25519 signatures are
//! deterministic, so a signature is a function of the document and the
//! message.
use vstd::prelude::*;
use crate::blockchain::hashing::{hash_header, spec_hash_header};
use crate::blockchain::proto::BlockHeader;

verus! {

/// Whether `signature` is a valid Ed25519 signature of `message` under the
/// public key `public_key`.
pub uninterp spec fn spec_ed25519_verify(public_key: Seq<u8>, message: Seq<u8>, signature: Seq<u8>) -> bool;

/// Whether `pkcs8` is a PKCS#8 v2 document of an Ed25519 key pair.
pub uninterp spec fn spec_ed25519_key_valid(pkcs8: Seq<u8>) -> bool;

/// The public key of the key pair that `pkcs8` holds.
pub uninterp spec fn spec_ed25519_public_key(pkcs8: Seq<u8>) -> Seq<u8>;

/// The Ed25519 signature of `message` by the key pair that `pkcs8` holds.
pub uninterp spec fn spec_ed25519_sign(pkcs8: Seq<u8>, message: Seq<u8>) -> Seq<u8>;

/// `ring::signature::UnparsedPublicKey::new` with `ED25519`, then `verify`.
///
/// Trusted: whether the signature is accepted is named
/// `spec_ed25519_verify` of the key, message and signature bytes; ring's
/// verification reads nothing else.
#[verifier::external_body]
pub(crate) fn ed25519_verify(public_key: &[u8], message: &[u8], signature: &[u8]) -> (r: bool)
    ensures
        r == spec_ed25519_verify(public_key@, message@, signature@),
{
    ring::signature::UnparsedPublicKey::new(&ring::signature::ED25519, public_key).verify(message, signature).is_ok()
}

/// `ring::signature::Ed25519KeyPair::from_pkcs8`: whether it accepts the
/// document.
///
/// Trusted: the answer is named `spec_ed25519_key_valid` of the bytes.
#[verifier::external_body]
fn ed25519_key_valid(pkcs8: &[u8]) -> (r: bool)
    ensures
        r == spec_ed25519_key_valid(pkcs8@),
{
    ring::signature::Ed25519KeyPair::from_pkcs8(pkcs8).is_ok()
}

/// `ring::signature::Ed25519KeyPair::from_pkcs8` on a document it accepts,
/// then `public_key`, copied out.
///
/// Trusted: the key is named `spec_ed25519_public_key` of the document; an
/// Ed25519 public key is 32 bytes long.
#[verifier::external_body]
fn ed25519_public_key(pkcs8: &[u8]) -> (r: Vec<u8>)
    requires
        spec_ed25519_key_valid(pkcs8@),
    ensures
        r@ == spec_ed25519_public_key(pkcs8@),
        r@.len() == 32,
{
    let pair = ring::signature::Ed25519KeyPair::from_pkcs8(pkcs8).unwrap();
    ring::signature::KeyPair::public_key(&pair).as_ref().to_vec()
}

/// `ring::signature::Ed25519KeyPair::from_pkcs8` on a document it accepts,
/// then `sign`, copied out.
///
/// Trusted: the signature is named `spec_ed25519_sign` of the document and
/// the message (ring derives the nonce from the key and the message, so the
/// same inputs give the same signature); it is 64 bytes long (a 32-byte
/// point and a 32-byte scalar); and it verifies under the key pair's public
/// key, as ring's documentation of Ed25519 signing and verifying shows.
#[verifier::external_body]
fn ed25519_sign(pkcs8: &[u8], message: &[u8]) -> (r: Vec<u8>)
    requires
        spec_ed25519_key_valid(pkcs8@),
    ensures
        r@ == spec_ed25519_sign(pkcs8@, message@),
        r@.len() == 64,
        spec_ed25519_verify(spec_ed25519_public_key(pkcs8@), message@, r@),
{
    let pair = ring::signature::Ed25519KeyPair::from_pkcs8(pkcs8).unwrap();
    pair.sign(message).as_ref().to_vec()
}

/// The replica's signing key and the exporter's public key.
pub struct Keys {
    signer: Vec<u8>,
    cloud: Vec<u8>,
}

impl Keys {
    #[verifier::type_invariant]
    spec fn inv(self) -> bool {
        spec_ed25519_key_valid(self.signer@)
    }

    /// The PKCS#8 document of the replica's key pair.
    pub closed spec fn signing_key(&self) -> Seq<u8> {
        self.signer@
    }

    /// The exporter's public key.
    pub closed spec fn cloud_key(&self) -> Seq<u8> {
        self.cloud@
    }

    /// The replica's public key.
    pub open spec fn own_key(&self) -> Seq<u8> {
        spec_ed25519_public_key(self.signing_key())
    }

    /// Keys from the replica's key pair (a PKCS#8 v2 document) and the
    /// exporter's public key; `None` when the document holds no key pair.
    pub fn new(signer: Vec<u8>, cloud: Vec<u8>) -> (r: Option<Self>)
        ensures
            r is Some <==> spec_ed25519_key_valid(signer@),
            r matches Some(k) ==> k.signing_key() == signer@ && k.cloud_key() == cloud@,
    {
        if ed25519_key_valid(signer.as_slice()) {
            Some(Keys { signer, cloud })
        } else {
            None
        }
    }

    /// The replica's public key.
    pub fn public_key(&self) -> (r: Vec<u8>)
        ensures
            r@ == self.own_key(),
    {
        proof {
            use_type_invariant(self);
        }
        ed25519_public_key(self.signer.as_slice())
    }

    /// Whether `signature` is the exporter's signature of the hash of `header`.
    pub fn verify_header(&self, header: &BlockHeader, signature: &[u8]) -> (r: bool)
        ensures
            r == spec_ed25519_verify(self.cloud_key(), spec_hash_header(header@), signature@),
    {
        let digest = hash_header(header);
        ed25519_verify(self.cloud.as_slice(), digest.as_slice(), signature)
    }

    /// The replica's signature of the hash of `header`; it verifies under
    /// the replica's public key.
    pub fn sign_header(&self, header: &BlockHeader) -> (r: Vec<u8>)
        ensures
            r@ == spec_ed25519_sign(self.signing_key(), spec_hash_header(header@)),
            r@.len() == 64,
            spec_ed25519_verify(self.own_key(), spec_hash_header(header@), r@),
    {
        proof {
            use_type_invariant(self);
        }
        let digest = hash_header(header);
        ed25519_sign(self.signer.as_slice(), digest.as_slice())
    }
}

} // verus!
