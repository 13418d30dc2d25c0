//! secp256k1 keys and ECDSA signatures, held as their byte encodings.
use crate::cbor::{enc_bytes, push_bytes, starts_with_at};
use crate::error::BtcError;
use crate::util::Saveable;
use crate::decode::parse_byte_array;
use vstd::prelude::*;

verus! {

/// What `SigningKey::from_slice(bytes)` gives back, as its 32-byte scalar (`to_bytes`).
pub uninterp spec fn secret_key_parse(bytes: Seq<u8>) -> Option<[u8; 32]>;

/// The compressed SEC1 encoding of the public key of a secret scalar
/// (`VerifyingKey::from(&key).to_encoded_point(true)`).
pub uninterp spec fn secret_to_public(secret: Seq<u8>) -> [u8; 33];

/// What `Signer::sign` of the signing key `secret` gives for `msg`, as its 64 bytes `r || s`.
pub uninterp spec fn ecdsa_signature(secret: Seq<u8>, msg: Seq<u8>) -> [u8; 64];

/// Whether `sig` (`r || s`) is a valid signature of `msg` under the SEC1-encoded key `public`.
pub uninterp spec fn ecdsa_verifies(public: Seq<u8>, msg: Seq<u8>, sig: Seq<u8>) -> bool;

/// What `VerifyingKey::from_sec1_bytes(bytes)` gives back, re-encoded compressed.
pub uninterp spec fn sec1_public_parse(bytes: Seq<u8>) -> Option<[u8; 33]>;

/// Whether `Signature::from_slice` accepts the 64 bytes `r || s`.
pub uninterp spec fn signature_well_formed(sig: Seq<u8>) -> bool;

/// A 32-byte string that is a secret scalar in its own canonical encoding.
pub open spec fn secret_key_valid(secret: [u8; 32]) -> bool {
    secret_key_parse(secret@) == Some(secret)
}

/// Calls `SigningKey::random(&mut OsRng)` and returns its scalar. The scalar is
/// trusted to be accepted back by `SigningKey::from_slice` unchanged; nothing is
/// said of which scalar comes out.
#[verifier::external_body]
fn random_secret() -> (r: [u8; 32])
    ensures
        secret_key_valid(r),
{
    k256::ecdsa::SigningKey::random(&mut rand_core::OsRng).to_bytes().into()
}

/// Calls `SigningKey::from_slice` and returns the scalar of the key it builds.
/// Trusted: a scalar it returns is accepted back unchanged.
#[verifier::external_body]
fn parse_secret(bytes: &[u8]) -> (r: Option<[u8; 32]>)
    ensures
        r == secret_key_parse(bytes@),
        r matches Some(k) ==> secret_key_valid(k),
{
    match k256::ecdsa::SigningKey::from_slice(bytes) {
        Ok(key) => Some(key.to_bytes().into()),
        Err(_) => None,
    }
}

/// Calls `SigningKey::from_slice` then `verifying_key().to_encoded_point(true)`.
/// Trusted: the 33 bytes parse back as the same public key.
#[verifier::external_body]
fn derive_public(secret: &[u8; 32]) -> (r: [u8; 33])
    requires
        secret_key_valid(*secret),
    ensures
        r == secret_to_public(secret@),
        sec1_public_parse(r@) == Some(r),
{
    match k256::ecdsa::SigningKey::from_slice(secret) {
        Ok(key) => {
            let point = key.verifying_key().to_encoded_point(true);
            let mut out = [0u8; 33];
            out.copy_from_slice(point.as_bytes());
            out
        },
        Err(_) => [0u8; 33],
    }
}

/// Calls `Signer::sign` of `SigningKey::from_slice(secret)` on `msg`. Trusted, as
/// k256 documents, to give a signature that verifies under the key's public key;
/// and, as ecdsa's source shows (a `Signature` holds non-zero scalars in range,
/// which `from_slice` checks), one whose bytes `Signature::from_slice` accepts.
#[verifier::external_body]
fn sign(secret: &[u8; 32], msg: &[u8; 32]) -> (r: [u8; 64])
    requires
        secret_key_valid(*secret),
    ensures
        r == ecdsa_signature(secret@, msg@),
        ecdsa_verifies(secret_to_public(secret@)@, msg@, r@),
        signature_well_formed(r@),
{
    match k256::ecdsa::SigningKey::from_slice(secret) {
        Ok(key) => {
            let signature: k256::ecdsa::Signature = k256::ecdsa::signature::Signer::sign(
                &key,
                msg,
            );
            signature.to_bytes().into()
        },
        Err(_) => [0u8; 64],
    }
}

/// Calls `VerifyingKey::from_sec1_bytes`, `Signature::from_slice` and `Verifier::verify`;
/// false where either does not parse.
#[verifier::external_body]
fn verify(public: &[u8; 33], msg: &[u8; 32], sig: &[u8; 64]) -> (r: bool)
    ensures
        r == ecdsa_verifies(public@, msg@, sig@),
{
    match (
        k256::ecdsa::VerifyingKey::from_sec1_bytes(public),
        k256::ecdsa::Signature::from_slice(sig),
    ) {
        (Ok(key), Ok(signature)) => k256::ecdsa::signature::Verifier::verify(
            &key,
            msg,
            &signature,
        ).is_ok(),
        _ => false,
    }
}

/// Calls `Signature::from_slice` on the 64 bytes.
#[verifier::external_body]
fn signature_parses(sig: &[u8; 64]) -> (r: bool)
    ensures
        r == signature_well_formed(sig@),
{
    k256::ecdsa::Signature::from_slice(sig).is_ok()
}

/// Calls `VerifyingKey::from_sec1_bytes` and re-encodes the key compressed; on
/// failure gives the error's text, of which nothing is stated. Trusted as well: the
/// compressed encoding of a point parses back as that point, so it is its own
/// re-encoding.
#[verifier::external_body]
fn parse_public(bytes: &[u8]) -> (r: Result<[u8; 33], String>)
    ensures
        r is Ok <==> sec1_public_parse(bytes@) is Some,
        r matches Ok(k) ==> sec1_public_parse(bytes@) == Some(k) && sec1_public_parse(k@) == Some(k),
{
    match k256::ecdsa::VerifyingKey::from_sec1_bytes(bytes) {
        Ok(key) => {
            let point = key.to_encoded_point(true);
            let mut out = [0u8; 33];
            out.copy_from_slice(point.as_bytes());
            Ok(out)
        },
        Err(e) => Err(e.to_string()),
    }
}

/// An ECDSA signature, `r || s`.
#[derive(Clone, Copy, Debug, Eq)]
pub struct Signature(pub [u8; 64]);

impl PartialEq for Signature {
    fn eq(&self, other: &Signature) -> (r: bool) {
        crate::sha256::same_bytes(&self.0, &other.0)
    }
}

impl vstd::std_specs::cmp::PartialEqSpecImpl for Signature {
    open spec fn obeys_eq_spec() -> bool {
        true
    }

    open spec fn eq_spec(&self, other: &Signature) -> bool {
        *self == *other
    }
}

/// A public key in compressed SEC1 form.
#[derive(Clone, Copy, Debug, Eq)]
pub struct PublicKey(pub(crate) [u8; 33]);

impl PublicKey {
    /// Its bytes are a point's compressed encoding, which reads back as itself.
    #[verifier::type_invariant]
    spec fn inv(self) -> bool {
        public_key_valid(self)
    }

    /// The 33 bytes of the compressed encoding.
    pub closed spec fn bytes(self) -> [u8; 33] {
        self.0
    }

    /// The 33 bytes of the compressed encoding.
    pub fn as_array(&self) -> (r: &[u8; 33])
        ensures
            *r == self.bytes(),
    {
        &self.0
    }
}

impl PartialEq for PublicKey {
    fn eq(&self, other: &PublicKey) -> (r: bool) {
        crate::sha256::same_bytes(&self.0, &other.0)
    }
}

impl vstd::std_specs::cmp::PartialEqSpecImpl for PublicKey {
    open spec fn obeys_eq_spec() -> bool {
        true
    }

    open spec fn eq_spec(&self, other: &PublicKey) -> bool {
        *self == *other
    }
}

/// A secret scalar that `SigningKey` accepts.
#[derive(Clone, Copy)]
pub struct PrivateKey {
    secret: [u8; 32],
}

impl PrivateKey {
    #[verifier::type_invariant]
    spec fn inv(self) -> bool {
        secret_key_valid(self.secret)
    }

    pub closed spec fn secret(self) -> [u8; 32] {
        self.secret
    }

    pub fn new_key() -> (r: PrivateKey)
        ensures
            secret_key_valid(r.secret()),
    {
        PrivateKey { secret: random_secret() }
    }

    pub fn public_key(&self) -> (r: PublicKey)
        ensures
            r.bytes() == secret_to_public(self.secret()@),
            public_key_valid(r),
    {
        proof {
            use_type_invariant(self);
        }
        PublicKey(derive_public(&self.secret))
    }

    /// Signs the 32 bytes of `hash`; the signature verifies under `public_key()`.
    pub fn sign_hash(&self, hash: crate::sha256::Hash) -> (r: Signature)
        ensures
            r.0 == ecdsa_signature(self.secret()@, hash.0@),
            ecdsa_verifies(secret_to_public(self.secret()@)@, hash.0@, r.0@),
            signature_well_formed(r.0@),
    {
        proof {
            use_type_invariant(self);
        }
        Signature(sign(&self.secret, &hash.0))
    }

    /// The 32-byte scalar.
    pub fn to_bytes(&self) -> (r: [u8; 32])
        ensures
            r == self.secret(),
            secret_key_valid(r),
    {
        proof {
            use_type_invariant(self);
        }
        self.secret
    }

    /// A key from its scalar, as `SigningKey::from_slice` accepts it.
    pub fn from_bytes(bytes: &[u8]) -> (r: Option<PrivateKey>)
        ensures
            r is Some <==> secret_key_parse(bytes@) is Some,
            r matches Some(k) ==> secret_key_parse(bytes@) == Some(k.secret()),
    {
        match parse_secret(bytes) {
            Some(secret) => Some(PrivateKey { secret }),
            None => None,
        }
    }
}

impl PublicKey {
    /// Whether `signature` signs the 32 bytes of `hash` under this key.
    pub fn verify_hash(&self, hash: crate::sha256::Hash, signature: &Signature) -> (r: bool)
        ensures
            r == ecdsa_verifies(self.bytes()@, hash.0@, signature.0@),
            public_key_valid(*self),
    {
        proof {
            use_type_invariant(self);
        }
        verify(&self.0, &hash.0, &signature.0)
    }

    /// The compressed SEC1 encoding, which `from_bytes` reads back as this key.
    pub fn to_bytes(&self) -> (r: Vec<u8>)
        ensures
            r@ == self.bytes()@,
            public_key_valid(*self),
    {
        proof {
            use_type_invariant(self);
        }
        let mut out: Vec<u8> = Vec::new();
        crate::cbor::push_all(&mut out, &self.0);
        out
    }

    /// A key from its SEC1 encoding, compressed or not.
    pub fn from_bytes(bytes: &[u8]) -> (r: Result<PublicKey, crate::error::BtcError>)
        ensures
            r is Ok <==> sec1_public_parse(bytes@) is Some,
            r matches Ok(k) ==> sec1_public_parse(bytes@) == Some(k.bytes()),
            r matches Err(e) ==> e is Crypto,
    {
        match parse_public(bytes) {
            Ok(key) => Ok(PublicKey(key)),
            Err(message) => Err(crate::error::BtcError::Crypto(message)),
        }
    }
}

/// A key that reads back as itself: its bytes are a compressed SEC1 point.
pub open spec fn public_key_valid(k: PublicKey) -> bool {
    sec1_public_parse(k.bytes()@) == Some(k.bytes())
}

/// A public key written as a byte string; read back only where it is a point.
pub fn parse_public_key(data: &[u8], pos: usize) -> (r: Option<(PublicKey, usize)>)
    ensures
        r matches Some((k, end)) ==> public_key_valid(k) && starts_with_at(data@, pos as int, enc_bytes(k.bytes()@))
            && end == pos + enc_bytes(k.bytes()@).len(),
        forall|k: PublicKey|
            public_key_valid(k) && #[trigger] starts_with_at(data@, pos as int, enc_bytes(k.bytes()@)) ==> r
                == Some((k, (pos + enc_bytes(k.bytes()@).len()) as usize)),
{
    match parse_byte_array::<33>(data, pos) {
        Some((bytes, end)) => match parse_public(&bytes) {
            Ok(key) => {
                if crate::sha256::same_bytes(&key, &bytes) {
                    Some((PublicKey(bytes), end))
                } else {
                    None
                }
            },
            Err(_) => None,
        },
        None => None,
    }
}

/// A signature written as a byte string; read back only where `from_slice` accepts it.
pub fn parse_signature(data: &[u8], pos: usize) -> (r: Option<(Signature, usize)>)
    ensures
        r matches Some((s, end)) ==> signature_well_formed(s.0@) && starts_with_at(
            data@,
            pos as int,
            enc_bytes(s.0@),
        ) && end == pos + enc_bytes(s.0@).len(),
        forall|s: Signature|
            signature_well_formed(s.0@) && #[trigger] starts_with_at(data@, pos as int, enc_bytes(s.0@))
                ==> r == Some((s, (pos + enc_bytes(s.0@).len()) as usize)),
{
    match parse_byte_array::<64>(data, pos) {
        Some((bytes, end)) => {
            if signature_parses(&bytes) {
                Some((Signature(bytes), end))
            } else {
                None
            }
        },
        None => None,
    }
}

/// The encoding of a private key: its scalar as a byte string.
pub open spec fn enc_private_key(k: PrivateKey) -> Seq<u8> {
    enc_bytes(k.secret()@)
}

/// A private key written as a byte string of any length: read back wherever
/// `SigningKey::from_slice` accepts those bytes, as the key it builds.
pub fn parse_private_key(data: &[u8], pos: usize) -> (r: Option<(PrivateKey, usize)>)
    ensures
        forall|b: Seq<u8>| #[trigger]
            starts_with_at(data@, pos as int, enc_bytes(b)) ==> match r {
                Some((k, end)) => secret_key_parse(b) == Some(k.secret()) && end == pos + enc_bytes(
                    b,
                ).len(),
                None => secret_key_parse(b) is None,
            },
        r is Some ==> exists|b: Seq<u8>| #[trigger] starts_with_at(data@, pos as int, enc_bytes(b)),
{
    match crate::decode::parse_bytes(data, pos) {
        Some((bytes, end)) => match parse_secret(bytes.as_slice()) {
            Some(secret) => Some((PrivateKey { secret }, end)),
            None => None,
        },
        None => None,
    }
}

/// A scalar in its own encoding reads back as the key it is.
pub proof fn lemma_private_key_reads_back(data: Seq<u8>, pos: int, k: PrivateKey, r: Option<(PrivateKey, usize)>)
    requires
        secret_key_valid(k.secret()),
        starts_with_at(data, pos, enc_private_key(k)),
        forall|b: Seq<u8>| #[trigger]
            starts_with_at(data, pos, enc_bytes(b)) ==> match r {
                Some((k2, end)) => secret_key_parse(b) == Some(k2.secret()) && end == pos + enc_bytes(
                    b,
                ).len(),
                None => secret_key_parse(b) is None,
            },
    ensures
        r == Some((k, (pos + enc_private_key(k).len()) as usize)),
{
    assert(starts_with_at(data, pos, enc_bytes(k.secret()@)));
}

impl Saveable for PublicKey {
    open spec fn stored_in(&self, data: Seq<u8>) -> bool {
        exists|b: Seq<u8>| #[trigger]
            starts_with_at(data, 0, enc_bytes(b)) && sec1_public_parse(b) == Some(self.bytes())
    }

    open spec fn saved_bytes(&self) -> Seq<u8> {
        enc_bytes(self.bytes()@)
    }

    open spec fn reloadable(&self) -> bool {
        public_key_valid(*self)
    }

    /// Reads a byte string of any length as `VerifyingKey::from_sec1_bytes` does,
    /// compressed or not.
    fn load(data: &[u8]) -> (r: Result<PublicKey, BtcError>)
        ensures
            forall|b: Seq<u8>| #[trigger]
                starts_with_at(data@, 0, enc_bytes(b)) ==> match r {
                    Ok(k) => sec1_public_parse(b) == Some(k.bytes()),
                    Err(_) => sec1_public_parse(b) is None,
                },
            forall|k: PublicKey|
                public_key_valid(k) && #[trigger] starts_with_at(data@, 0, enc_bytes(k.bytes()@)) ==> r == Ok::<
                    PublicKey,
                    BtcError,
                >(k),
    {
        match crate::decode::parse_bytes(data, 0) {
            Some((bytes, _)) => match parse_public(bytes.as_slice()) {
                Ok(key) => {
                    let k = PublicKey(key);
                    proof {
                        assert forall|k2: PublicKey|
                            public_key_valid(k2) && #[trigger] starts_with_at(data@, 0, enc_bytes(k2.bytes()@)) implies k2
                                == k by {
                            assert(bytes@ == k2.bytes()@);
                        }
                    }
                    Ok(k)
                },
                Err(_) => Err(BtcError::Serialization),
            },
            None => Err(BtcError::Serialization),
        }
    }

    fn save(&self, out: &mut Vec<u8>) -> (r: Result<(), BtcError>) {
        push_bytes(out, &self.0);
        Ok(())
    }
}

impl Saveable for PrivateKey {
    open spec fn stored_in(&self, data: Seq<u8>) -> bool {
        exists|b: Seq<u8>| #[trigger]
            starts_with_at(data, 0, enc_bytes(b)) && secret_key_parse(b) == Some(self.secret())
    }

    open spec fn saved_bytes(&self) -> Seq<u8> {
        enc_private_key(*self)
    }

    open spec fn reloadable(&self) -> bool {
        secret_key_valid(self.secret())
    }

    fn load(data: &[u8]) -> (r: Result<PrivateKey, BtcError>)
        ensures
            forall|b: Seq<u8>| #[trigger]
                starts_with_at(data@, 0, enc_bytes(b)) ==> match r {
                    Ok(k) => secret_key_parse(b) == Some(k.secret()),
                    Err(_) => secret_key_parse(b) is None,
                },
            forall|k: PrivateKey|
                secret_key_valid(k.secret()) && #[trigger] starts_with_at(data@, 0, enc_private_key(k)) ==> r
                    == Ok::<PrivateKey, BtcError>(k),
    {
        let p = parse_private_key(data, 0);
        proof {
            assert forall|k: PrivateKey|
                secret_key_valid(k.secret()) && #[trigger] starts_with_at(data@, 0, enc_private_key(k)) implies p
                    == Some((k, enc_private_key(k).len() as usize)) by {
                lemma_private_key_reads_back(data@, 0, k, p);
            }
        }
        match p {
            Some((k, _)) => {
                proof {
                    use_type_invariant(&k);
                }
                Ok(k)
            },
            None => Err(BtcError::Serialization),
        }
    }

    fn save(&self, out: &mut Vec<u8>) -> (r: Result<(), BtcError>) {
        push_bytes(out, &self.secret);
        Ok(())
    }
}

} // verus!
