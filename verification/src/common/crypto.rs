//! Algorithm identifiers and the capabilities a caller's keys provide.

use vstd::prelude::*;
use crate::Error;

verus! {

/// Bit of SHA-1 in a key record's set of acceptable hash functions.
pub const R_HASH_SHA1: u64 = 0x01;

/// Bit of SHA-256 in a key record's set of acceptable hash functions.
pub const R_HASH_SHA256: u64 = 0x02;

/// A signature algorithm together with the hash it is computed over.
#[derive(Debug, Clone, Copy, PartialEq, Eq, Structural)]
pub enum Algorithm {
    RsaSha1,
    RsaSha256,
    Ed25519Sha256,
}

/// A hash function.
#[derive(Debug, Clone, Copy, PartialEq, Eq, Structural)]
pub enum HashAlgorithm {
    Sha1,
    Sha256,
}

/// The family a key belongs to, as a key record's `k=` tag names it.
#[derive(Debug, Clone, Copy, PartialEq, Eq, Structural)]
pub enum KeyType {
    Rsa,
    Ed25519,
}

impl Algorithm {
    /// The hash function an algorithm signs over. The mapping is fixed.
    pub open spec fn hash_algorithm(self) -> HashAlgorithm {
        match self {
            Algorithm::RsaSha1 => HashAlgorithm::Sha1,
            Algorithm::RsaSha256 | Algorithm::Ed25519Sha256 => HashAlgorithm::Sha256,
        }
    }

    /// The key family an algorithm signs with.
    pub open spec fn key_type(self) -> KeyType {
        match self {
            Algorithm::RsaSha1 | Algorithm::RsaSha256 => KeyType::Rsa,
            Algorithm::Ed25519Sha256 => KeyType::Ed25519,
        }
    }

    /// Computes [`Algorithm::key_type`].
    pub fn family(self) -> (r: KeyType)
        ensures
            r == self.key_type(),
    {
        match self {
            Algorithm::RsaSha1 | Algorithm::RsaSha256 => KeyType::Rsa,
            Algorithm::Ed25519Sha256 => KeyType::Ed25519,
        }
    }
}

impl HashAlgorithm {
    /// The bit that stands for this hash function in a key record.
    pub open spec fn bit(self) -> u64 {
        match self {
            HashAlgorithm::Sha1 => R_HASH_SHA1,
            HashAlgorithm::Sha256 => R_HASH_SHA256,
        }
    }
}

impl Default for Algorithm {
    fn default() -> (r: Self)
        ensures
            r == Algorithm::RsaSha256,
    {
        Algorithm::RsaSha256
    }
}

impl From<Algorithm> for HashAlgorithm {
    fn from(a: Algorithm) -> (r: Self) {
        match a {
            Algorithm::RsaSha256 | Algorithm::Ed25519Sha256 => HashAlgorithm::Sha256,
            Algorithm::RsaSha1 => HashAlgorithm::Sha1,
        }
    }
}

impl vstd::std_specs::convert::FromSpecImpl<Algorithm> for HashAlgorithm {
    open spec fn obeys_from_spec() -> bool {
        true
    }

    open spec fn from_spec(a: Algorithm) -> Self {
        a.hash_algorithm()
    }
}

impl From<HashAlgorithm> for u64 {
    fn from(v: HashAlgorithm) -> (r: Self) {
        match v {
            HashAlgorithm::Sha1 => R_HASH_SHA1,
            HashAlgorithm::Sha256 => R_HASH_SHA256,
        }
    }
}

impl vstd::std_specs::convert::FromSpecImpl<HashAlgorithm> for u64 {
    open spec fn obeys_from_spec() -> bool {
        true
    }

    open spec fn from_spec(v: HashAlgorithm) -> Self {
        v.bit()
    }
}

/// A private key held by the signing domain.
///
/// The library decides what is hashed and what is signed; the key does the
/// arithmetic. Nothing is assumed of what an implementation returns: the
/// library's contracts say what a key was asked and speak of its answers as
/// whatever they were.
pub trait SigningKey {
    /// The algorithm this key signs with.
    fn algorithm(&self) -> Algorithm;

    /// The digest of `data` under the hash function of this key's algorithm.
    fn hash(&self, data: &[u8]) -> Vec<u8>;

    /// The signature over `data`, or the reason none could be made.
    fn sign(&self, data: &[u8]) -> Result<Vec<u8>, Error>;
}

/// The primitives a verifier needs, supplied by the caller.
///
/// Nothing is assumed of what an implementation returns: the library's
/// contracts say what a verifier was asked and speak of its answers as
/// whatever they were.
pub trait Verifier {
    /// The digest of `data` under `algorithm`.
    fn hash(&self, algorithm: HashAlgorithm, data: &[u8]) -> Vec<u8>;

    /// Whether `signature` is a signature over `data` under `algorithm` by
    /// the key whose published form is `public_key`.
    fn verify(&self, algorithm: Algorithm, public_key: &[u8], data: &[u8], signature: &[u8]) -> bool;
}

/// The view of what a key gave when asked to sign.
pub open spec fn signed_view(outcome: Result<Vec<u8>, Error>) -> Result<Seq<u8>, Error> {
    match outcome {
        Ok(b) => Ok(b@),
        Err(e) => Err(e),
    }
}

/// Whether `algorithm` is an answer of `key` when asked for its algorithm.
pub open spec fn key_reports<K: SigningKey>(key: &K, algorithm: Algorithm) -> bool {
    call_ensures(K::algorithm, (key,), algorithm)
}

/// Whether `digest` is an answer of `key` when asked for the digest of
/// `data`.
pub open spec fn key_hashes<K: SigningKey>(key: &K, data: Seq<u8>, digest: Seq<u8>) -> bool {
    exists|input: &[u8], output: Vec<u8>|
        #[trigger] call_ensures(K::hash, (key, input), output) && input@ == data && output@
            == digest
}

/// Whether `outcome` is an answer of `key` when asked to sign `data`.
pub open spec fn key_signs<K: SigningKey>(
    key: &K,
    data: Seq<u8>,
    outcome: Result<Seq<u8>, Error>,
) -> bool {
    exists|input: &[u8], output: Result<Vec<u8>, Error>|
        #[trigger] call_ensures(K::sign, (key, input), output) && input@ == data && signed_view(
            output,
        ) == outcome
}

/// Whether `digest` is an answer of `verifier` when asked for the digest of
/// `data` under `algorithm`.
pub open spec fn verifier_hashes<V: Verifier>(
    verifier: &V,
    algorithm: HashAlgorithm,
    data: Seq<u8>,
    digest: Seq<u8>,
) -> bool {
    exists|input: &[u8], output: Vec<u8>|
        #[trigger] call_ensures(V::hash, (verifier, algorithm, input), output) && input@ == data
            && output@ == digest
}

/// Whether `accepted` is an answer of `verifier` when asked whether
/// `signature` is a signature over `data` under `algorithm` by the key
/// `public_key`.
pub open spec fn verifier_judges<V: Verifier>(
    verifier: &V,
    algorithm: Algorithm,
    public_key: Seq<u8>,
    data: Seq<u8>,
    signature: Seq<u8>,
    accepted: bool,
) -> bool {
    exists|key: &[u8], input: &[u8], bytes: &[u8]|
        #[trigger] call_ensures(V::verify, (verifier, algorithm, key, input, bytes), accepted)
            && key@ == public_key && input@ == data && bytes@ == signature
}

/// Asks `key` for its algorithm.
pub fn ask_algorithm<K: SigningKey>(key: &K) -> (r: Algorithm)
    ensures
        key_reports(key, r),
{
    key.algorithm()
}

/// Asks `key` for the digest of `data`.
pub fn ask_hash<K: SigningKey>(key: &K, data: &[u8]) -> (r: Vec<u8>)
    ensures
        key_hashes(key, data@, r@),
{
    let r = key.hash(data);
    proof {
        assert(call_ensures(K::hash, (key, data), r));
    }
    r
}

/// Asks `key` to sign `data`.
pub fn ask_signature<K: SigningKey>(key: &K, data: &[u8]) -> (r: Result<Vec<u8>, Error>)
    ensures
        key_signs(key, data@, signed_view(r)),
{
    let r = key.sign(data);
    proof {
        assert(call_ensures(K::sign, (key, data), r));
    }
    r
}

/// Asks `verifier` for the digest of `data` under `algorithm`.
pub fn ask_digest<V: Verifier>(verifier: &V, algorithm: HashAlgorithm, data: &[u8]) -> (r: Vec<u8>)
    ensures
        verifier_hashes(verifier, algorithm, data@, r@),
{
    let r = verifier.hash(algorithm, data);
    proof {
        assert(call_ensures(V::hash, (verifier, algorithm, data), r));
    }
    r
}

/// Asks `verifier` whether `signature` is a signature over `data` under
/// `algorithm` by the key `public_key`.
pub fn ask_verdict<V: Verifier>(
    verifier: &V,
    algorithm: Algorithm,
    public_key: &[u8],
    data: &[u8],
    signature: &[u8],
) -> (r: bool)
    ensures
        verifier_judges(verifier, algorithm, public_key@, data@, signature@, r),
{
    let r = verifier.verify(algorithm, public_key, data, signature);
    proof {
        assert(call_ensures(V::verify, (verifier, algorithm, public_key, data, signature), r));
    }
    r
}

} // verus!
