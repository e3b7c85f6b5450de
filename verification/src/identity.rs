use vstd::prelude::*;
use vstd::string::StringSliceAdditionalSpecFns;
use crate::consts::ID_LEN;
use crate::id::Id;
use p256::ecdsa::signature::Signature;
use p256::ecdsa::signature::Signer;
use p256::ecdsa::signature::Verifier;
use sha2::Digest;

verus! {

/// The SHA-256 digest of a message: thirty-two bytes.
pub uninterp spec fn sha256_of(message: Seq<u8>) -> Seq<u8>;

/// Whether `key` is a SEC1-encoded P-256 public key and `signature` a raw
/// ECDSA signature that this key verifies for `message`.
pub uninterp spec fn p256_verifies(key: Seq<u8>, signature: Seq<u8>, message: Seq<u8>) -> bool;

/// The public key, in uncompressed SEC1 form, of the P-256 secret key
/// whose scalar has these bytes.
pub uninterp spec fn p256_public_key_of(secret: Seq<u8>) -> Seq<u8>;

/// The raw ECDSA signature of `message` under the P-256 secret key whose
/// scalar has these bytes, made with the deterministic nonce of RFC 6979;
/// none if the bytes are no secret key or the signing fails.
pub uninterp spec fn p256_signature_of(secret: Seq<u8>, message: Seq<u8>) -> Option<Seq<u8>>;

/// The bytes of a byte string that may be missing.
pub open spec fn bytes_of(bytes: Option<Vec<u8>>) -> Option<Seq<u8>> {
    match bytes {
        Some(v) => Some(v@),
        None => None,
    }
}

/// `Sha256::new`, `update` and `finalize` of the `sha2` crate: the digest
/// of `context` followed by `data`.
#[verifier::external_body]
fn sha256(context: &[u8], data: &[u8]) -> (r: [u8; 32])
    ensures
        r@ == sha256_of(context@ + data@),
{
    let mut hasher = sha2::Sha256::new();
    hasher.update(context);
    hasher.update(data);
    hasher.finalize().into()
}

/// `SigningKey::random` of the `p256` crate, on the generator of the
/// operating system, with `SigningKey::to_bytes` and
/// `VerifyingKey::to_encoded_point`: the bytes of a new secret key, and
/// the public key of that secret key in uncompressed SEC1 form. A public
/// key is never the point at infinity, so that its uncompressed form is a
/// tag and two coordinates of thirty-two bytes.
#[verifier::external_body]
fn p256_generate() -> (r: (Vec<u8>, Vec<u8>))
    ensures
        r.1@ == p256_public_key_of(r.0@),
        r.1@.len() == 65,
{
    let key = p256::ecdsa::SigningKey::random(rand::rngs::OsRng);
    let public = key.verifying_key().to_encoded_point(false).as_bytes().to_vec();
    (key.to_bytes().to_vec(), public)
}

/// `SigningKey::from_bytes` and `Signer::try_sign` of the `p256` crate:
/// the raw signature of `message` under the secret key with these bytes,
/// if they are a secret key and the signing succeeds. The signature is
/// made with the nonce of RFC 6979, which the key and the message
/// determine.
#[verifier::external_body]
fn p256_sign(secret: &[u8], message: &[u8]) -> (r: Option<Vec<u8>>)
    ensures
        bytes_of(r) == p256_signature_of(secret@, message@),
{
    match p256::ecdsa::SigningKey::from_bytes(secret) {
        Ok(key) => match key.try_sign(message) {
            Ok(signature) => {
                let signature: p256::ecdsa::Signature = signature;
                Some(signature.as_bytes().to_vec())
            },
            Err(_) => None,
        },
        Err(_) => None,
    }
}

/// `VerifyingKey::from_sec1_bytes`, `Signature::from_bytes` and
/// `Verifier::verify` of the `p256` crate: whether the key and the
/// signature can be read and the key verifies the signature for `message`.
#[verifier::external_body]
fn p256_verify(key: &[u8], signature: &[u8], message: &[u8]) -> (r: bool)
    ensures
        r == p256_verifies(key@, signature@, message@),
{
    match p256::ecdsa::VerifyingKey::from_sec1_bytes(key) {
        Ok(key) => match p256::ecdsa::Signature::from_bytes(signature) {
            Ok(signature) => key.verify(message, &signature).is_ok(),
            Err(_) => false,
        },
        Err(_) => false,
    }
}

/// The bytes that are hashed before a public key to name a peer.
pub open spec fn key_hash_context() -> Seq<u8> {
    "wdht.transport.identity".spec_bytes()
}

/// The bytes that are hashed before the name of a topic.
pub open spec fn topic_hash_context() -> Seq<u8> {
    "wdht.topic".spec_bytes()
}

/// The identifier made of the first twenty bytes of the digest of
/// `context` followed by `data`.
pub open spec fn hashed_id(context: Seq<u8>, data: Seq<u8>) -> Id {
    Id::from_seq(sha256_of(context + data).take(20))
}

/// The identifier of the peer with this public key.
pub open spec fn identity_of(key: Seq<u8>) -> Id {
    hashed_id(key_hash_context(), key)
}

/// The first twenty bytes of the digest of `context` followed by `data`,
/// as an identifier.
pub fn hash_to_id(context: &[u8], data: &[u8]) -> (r: Id)
    ensures
        r == hashed_id(context@, data@),
{
    let digest = sha256(context, data);
    let mut bytes = [0u8; ID_LEN];
    let mut i: usize = 0;
    while i < ID_LEN
        invariant
            i <= 20,
            forall|j: int| 0 <= j < i ==> bytes@[j] == digest@[j],
        decreases 20 - i,
    {
        bytes[i] = digest[i];
        i += 1;
    }
    let r = Id(bytes);
    proof {
        let want = sha256_of(context@ + data@).take(20);
        Id::lemma_from_seq(want);
        assert(r@ =~= want);
        Id::lemma_ext(r, Id::from_seq(want));
    }
    r
}

/// The identifier of the peer with this public key.
pub fn compute_identity(key: &[u8]) -> (r: Id)
    ensures
        r == identity_of(key@),
{
    hash_to_id("wdht.transport.identity".as_bytes(), key)
}

/// The identifier of the topic with this name; none for the empty name.
pub fn hash_key(key: &str) -> (r: Option<Id>)
    ensures
        r == if key@.len() == 0 {
            None
        } else {
            Some(hashed_id(topic_hash_context(), key.spec_bytes()))
        },
{
    if key.unicode_len() == 0 {
        return None;
    }
    Some(hash_to_id("wdht.topic".as_bytes(), key.as_bytes()))
}

/// What a peer is known by: a P-256 key pair, whose public half names it.
pub struct Identity {
    secret: Vec<u8>,
    public: Vec<u8>,
}

impl Identity {
    /// The public key, in uncompressed SEC1 form.
    pub closed spec fn public_key(&self) -> Seq<u8> {
        self.public@
    }

    /// The bytes of the secret key.
    pub closed spec fn secret_key(&self) -> Seq<u8> {
        self.secret@
    }

    /// A new identity: a secret key drawn at random, and the public key
    /// that belongs to it, which is sixty-five bytes long.
    pub fn generate() -> (r: Identity)
        ensures
            r.public_key() == p256_public_key_of(r.secret_key()),
            r.public_key().len() == 65,
    {
        let (secret, public) = p256_generate();
        Identity { secret, public }
    }

    /// The public key, in uncompressed SEC1 form.
    pub fn export_key(&self) -> (r: &[u8])
        ensures
            r@ == self.public_key(),
    {
        self.public.as_slice()
    }

    /// The identifier that this identity is known by.
    pub fn generate_id(&self) -> (r: Id)
        ensures
            r == identity_of(self.public_key()),
    {
        compute_identity(self.public.as_slice())
    }

    /// The proof that the channel with this certificate fingerprint ends
    /// at this identity: the signature of the fingerprint under the secret
    /// key of the identity, if it can be made.
    pub fn create_proof(&self, fingerprint: &[u8]) -> (r: Option<Vec<u8>>)
        ensures
            bytes_of(r) == p256_signature_of(self.secret_key(), fingerprint@),
    {
        p256_sign(self.secret.as_slice(), fingerprint)
    }

    /// Checks the proof of a peer: the signature must be that of the
    /// fingerprint under the peer's key. Gives the identifier of the peer.
    pub fn check_identity_proof(&self, key: &[u8], fingerprint: &[u8], signature: &[u8]) -> (r: Result<
        Id,
        (),
    >)
        ensures
            r == if p256_verifies(key@, signature@, fingerprint@) {
                Ok::<Id, ()>(identity_of(key@))
            } else {
                Err::<Id, ()>(())
            },
    {
        Identity::identity_if(p256_verify(key, signature, fingerprint), key)
    }

    /// The identifier of the peer with this public key, if its proof was
    /// found good.
    pub fn identity_if(verified: bool, key: &[u8]) -> (r: Result<Id, ()>)
        ensures
            r == if verified {
                Ok::<Id, ()>(identity_of(key@))
            } else {
                Err::<Id, ()>(())
            },
    {
        if !verified {
            return Err(());
        }
        Ok(compute_identity(key))
    }
}

} // verus!
