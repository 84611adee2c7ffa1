//! Email message authentication: DKIM signing and verification and ARC chain
//! validation, with the byte-exact canonical forms they are computed over.

use vstd::prelude::*;

pub mod arc;
pub mod common;
pub mod dkim;

use crate::dkim::Signature;

verus! {

/// How a DNS lookup failed.
#[derive(Debug, Clone, Copy, PartialEq, Eq, Structural)]
pub enum DnsFailure {
    /// No answer came in time.
    Timeout,
    /// The server failed.
    ServFail,
    /// The name does not exist.
    NxDomain,
}

/// Why a signature, a key record or a chain was not accepted.
#[derive(Debug, Clone, Copy, PartialEq, Eq, Structural)]
pub enum Error {
    /// Malformed tag syntax, a missing required tag, or a version other than 1.
    SignatureParseError,
    /// The `a=` tag names no algorithm this library knows.
    UnsupportedAlgorithm,
    /// The `c=` tag names no canonicalization this library knows.
    UnsupportedCanonicalization,
    /// The signature's expiration lies before its creation or before now.
    SignatureExpired,
    /// The `l=` tag claims more body than the canonical body holds.
    SignatureLength,
    /// The key record is malformed.
    KeyRecordParseError,
    /// The key record carries an empty or absent `p=`.
    KeyRevoked,
    /// The key record's `k=` family differs from the signature's algorithm.
    AlgorithmMismatch,
    /// The signing key's family differs from the configured algorithm.
    KeyAlgorithmMismatch,
    /// The key record's `s=` tag does not admit email.
    ServiceNotAllowed,
    /// The resolver failed for now.
    DnsError(DnsFailure),
    /// The resolver found no key record at the query name.
    NoKeyFound,
    /// The resolver found several differing key records.
    AmbiguousKey,
    /// The key demands `i=` to be in the signing domain itself, and it is not.
    StrictSubdomainViolation,
    /// The identity (`i=`) is outside the signing domain.
    IdentityMismatch,
    /// The recomputed body hash differs from `bh=`.
    BodyHashMismatch,
    /// The public key rejects the signature bytes.
    BadSignature,
    /// The ATPS record is malformed.
    AtpsParseError,
    /// ARC instance numbers are not 1, 2, 3, ... without gap or repeat.
    ArcInstanceSequenceInvalid,
    /// An ARC instance failed to verify or declared the wrong chain status.
    ArcBrokenChain,
    /// The message carries no signature to evaluate.
    NoSignature,
    /// The message carries no ARC header set.
    NoArcSet,
}

/// The outcome of evaluating one signature, or a whole ARC chain.
#[derive(Debug, Clone, Copy, PartialEq, Eq, Structural)]
pub enum DkimResult {
    Pass,
    Neutral(Error),
    Fail(Error),
    PermError(Error),
    TempError(Error),
}

/// The version a record declares.
#[derive(Debug, Clone, Copy, PartialEq, Eq, Structural)]
pub enum Version {
    V1,
}

/// What became of one signature of a message.
#[derive(Debug, Clone, PartialEq, Eq)]
pub struct DkimOutput<'x> {
    /// The result.
    pub result: DkimResult,
    /// The signature, kept by the caller, that the result is about.
    pub signature: Option<&'x Signature>,
    /// The address failure reports go to.
    pub report: Option<String>,
    /// Whether the result was reached through a third-party authorization.
    pub is_atps: bool,
}

/// One ARC instance: what a relay added to the message when it handled it.
#[derive(Debug, Clone, PartialEq, Eq)]
pub struct ArcSet<'x> {
    /// The ARC-Message-Signature of the instance.
    pub signature: &'x Signature,
    /// The ARC-Seal of the instance.
    pub seal: &'x crate::arc::Seal,
    /// The ARC-Authentication-Results of the instance.
    pub results: &'x crate::arc::Results,
}

/// The verdict on a message's ARC chain.
#[derive(Debug, Clone, PartialEq, Eq)]
pub struct ArcOutput<'x> {
    /// The chain verdict.
    pub result: DkimResult,
    /// The header sets of the chain, by instance.
    pub set: Vec<ArcSet<'x>>,
}

} // verus!
