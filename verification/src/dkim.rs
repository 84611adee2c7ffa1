//! The DKIM signature model and the outcome of evaluating a signature.

use vstd::prelude::*;

pub mod agreement;
pub mod builder;
pub mod canonicalize;
pub mod headers;
pub mod parse;
pub mod records;
pub mod sign;
pub mod verify;

use vstd::utf8::encode_utf8;
use crate::common::crypto::{Algorithm, HashAlgorithm, SigningKey};
use crate::dkim::headers::name_bytes;
use crate::common::verify::VerifySignature;
use crate::{ArcOutput, ArcSet, DkimOutput, DkimResult, Error, Version};

verus! {

/// How header or body bytes are brought into canonical form.
#[derive(Debug, Clone, Copy, PartialEq, Eq, Structural)]
pub enum Canonicalization {
    Relaxed,
    Simple,
}

/// A signer under configuration. `State` records how far the configuration
/// has come; only a signer in state [`Done`] can sign.
#[derive(Debug, PartialEq, Eq)]
pub struct DkimSigner<T: SigningKey, State = NeedDomain> {
    pub _state: std::marker::PhantomData<State>,
    pub key: T,
    pub template: Signature,
}

/// State of a signer that has no signing domain yet.
pub struct NeedDomain;

/// State of a signer that has a domain and no selector yet.
pub struct NeedSelector;

/// State of a signer that has domain and selector and no header list yet.
pub struct NeedHeaders;

/// State of a signer that is fully configured.
pub struct Done;

/// A DKIM-Signature tag set.
#[derive(Debug, PartialEq, Eq, Clone)]
pub struct Signature {
    /// Version (`v=`).
    pub v: u32,
    /// Algorithm (`a=`).
    pub a: Algorithm,
    /// Signing domain (`d=`).
    pub d: String,
    /// Selector (`s=`).
    pub s: String,
    /// Signature bytes (`b=`).
    pub b: Vec<u8>,
    /// Body hash (`bh=`).
    pub bh: Vec<u8>,
    /// Names of the signed header fields, in signing order (`h=`).
    pub h: Vec<String>,
    /// Copied header fields (`z=`).
    pub z: Vec<String>,
    /// Agent or user identity (`i=`); empty when absent.
    pub i: String,
    /// Body length limit (`l=`); 0 stands for no limit.
    pub l: u64,
    /// Expiration (`x=`), seconds since the epoch; 0 stands for none.
    pub x: u64,
    /// Creation (`t=`), seconds since the epoch.
    pub t: u64,
    /// Whether failure reports are requested (`r=y`).
    pub r: bool,
    /// Domain of an authorized third-party signer (`atps=`).
    pub atps: Option<String>,
    /// Hash function of the ATPS query name (`atpsh=`).
    pub atpsh: Option<HashAlgorithm>,
    /// Header canonicalization (first part of `c=`).
    pub ch: Canonicalization,
    /// Body canonicalization (second part of `c=`).
    pub cb: Canonicalization,
}

/// A signature as plain values: each text by its bytes.
pub struct SignatureView {
    pub v: u32,
    pub a: Algorithm,
    pub d: Seq<u8>,
    pub s: Seq<u8>,
    pub b: Seq<u8>,
    pub bh: Seq<u8>,
    pub h: Seq<Seq<u8>>,
    pub z: Seq<Seq<u8>>,
    pub i: Seq<u8>,
    pub l: u64,
    pub x: u64,
    pub t: u64,
    pub r: bool,
    pub atps: Option<Seq<u8>>,
    pub atpsh: Option<HashAlgorithm>,
    pub ch: Canonicalization,
    pub cb: Canonicalization,
}

impl View for Signature {
    type V = SignatureView;

    open spec fn view(&self) -> SignatureView {
        SignatureView {
            v: self.v,
            a: self.a,
            d: encode_utf8(self.d@),
            s: encode_utf8(self.s@),
            b: self.b@,
            bh: self.bh@,
            h: name_bytes(self.h@),
            z: name_bytes(self.z@),
            i: encode_utf8(self.i@),
            l: self.l,
            x: self.x,
            t: self.t,
            r: self.r,
            atps: match self.atps {
                Some(domain) => Some(encode_utf8(domain@)),
                None => None,
            },
            atpsh: self.atpsh,
            ch: self.ch,
            cb: self.cb,
        }
    }
}

impl SignatureView {
    /// Whether the signature has expired at the time `now`: it carries an
    /// expiration, and that lies before its creation or before `now`.
    pub open spec fn expired(self, now: u64) -> bool {
        self.x != 0 && (self.x < self.t || self.x < now)
    }
}

impl<T: SigningKey + Clone, State> Clone for DkimSigner<T, State> {
    fn clone(&self) -> (r: Self)
        ensures
            r.template@ == self.template@,
            call_ensures(T::clone, (&self.key,), r.key),
    {
        DkimSigner {
            _state: std::marker::PhantomData,
            key: self.key.clone(),
            template: self.template.duplicate(),
        }
    }
}

impl Default for Canonicalization {
    fn default() -> (r: Self)
        ensures
            r == Canonicalization::Relaxed,
    {
        Canonicalization::Relaxed
    }
}

impl Default for Signature {
    fn default() -> (r: Self)
        ensures
            r.v == 0,
            r.a == Algorithm::RsaSha256,
            r.d@.len() == 0,
            r.s@.len() == 0,
            r.b@.len() == 0,
            r.bh@.len() == 0,
            r.h@.len() == 0,
            r.z@.len() == 0,
            r.i@.len() == 0,
            r.l == 0,
            r.x == 0,
            r.t == 0,
            !r.r,
            r.atps is None,
            r.atpsh is None,
            r.ch == Canonicalization::Relaxed,
            r.cb == Canonicalization::Relaxed,
    {
        Signature {
            v: 0,
            a: Algorithm::RsaSha256,
            d: String::new(),
            s: String::new(),
            b: Vec::new(),
            bh: Vec::new(),
            h: Vec::new(),
            z: Vec::new(),
            i: String::new(),
            l: 0,
            x: 0,
            t: 0,
            r: false,
            atps: None,
            atpsh: None,
            ch: Canonicalization::Relaxed,
            cb: Canonicalization::Relaxed,
        }
    }
}

/// Where and how a domain wants failure reports sent.
#[derive(Debug, PartialEq, Eq, Clone)]
pub struct DomainKeyReport {
    /// Reporting address (`ra=`).
    pub ra: String,
    /// Share of failures to report, in percent (`rp=`).
    pub rp: u8,
    /// Kinds of failure to report, a union of the `RR_` bits (`rr=`).
    pub rr: u8,
    /// Text to put into the SMTP rejection (`rs=`).
    pub rs: Option<String>,
}

/// An authorized-third-party-signature record.
#[derive(Debug, PartialEq, Eq, Clone)]
pub struct Atps {
    /// Version (`v=`).
    pub v: Version,
    /// The domain the record was published for (`d=`); the signing domain
    /// itself when absent.
    pub d: Option<String>,
}

/// Key usable for every service.
pub const R_SVC_ALL: u64 = 0x04;

/// Key usable for email.
pub const R_SVC_EMAIL: u64 = 0x08;

/// The domain is testing DKIM.
pub const R_FLAG_TESTING: u64 = 0x10;

/// The identity's domain must be the signing domain itself.
pub const R_FLAG_MATCH_DOMAIN: u64 = 0x20;

/// Report DNS failures.
pub const RR_DNS: u8 = 0x01;

/// Report failures of no other kind.
pub const RR_OTHER: u8 = 0x02;

/// Report policy failures.
pub const RR_POLICY: u8 = 0x04;

/// Report signature failures.
pub const RR_SIGNATURE: u8 = 0x08;

/// Report unknown tags.
pub const RR_UNKNOWN_TAG: u8 = 0x10;

/// Report verification failures.
pub const RR_VERIFICATION: u8 = 0x20;

/// Report expired signatures.
pub const RR_EXPIRATION: u8 = 0x40;

/// Every report bit.
pub const RR_ALL: u8 = 0x7f;

/// What a key may be used for.
#[derive(Debug, Clone, Copy, PartialEq, Eq, Structural)]
pub enum Service {
    All,
    Email,
}

/// A flag of a key record.
#[derive(Debug, Clone, Copy, PartialEq, Eq, Structural)]
pub enum Flag {
    Testing,
    MatchDomain,
}

impl Service {
    /// The bit that stands for this service in a key record.
    pub open spec fn bit(self) -> u64 {
        match self {
            Service::All => R_SVC_ALL,
            Service::Email => R_SVC_EMAIL,
        }
    }
}

impl Flag {
    /// The bit that stands for this flag in a key record.
    pub open spec fn bit(self) -> u64 {
        match self {
            Flag::Testing => R_FLAG_TESTING,
            Flag::MatchDomain => R_FLAG_MATCH_DOMAIN,
        }
    }
}

impl From<Flag> for u64 {
    fn from(v: Flag) -> (r: Self) {
        match v {
            Flag::Testing => R_FLAG_TESTING,
            Flag::MatchDomain => R_FLAG_MATCH_DOMAIN,
        }
    }
}

impl vstd::std_specs::convert::FromSpecImpl<Flag> for u64 {
    open spec fn obeys_from_spec() -> bool {
        true
    }

    open spec fn from_spec(v: Flag) -> Self {
        v.bit()
    }
}

impl From<Service> for u64 {
    fn from(v: Service) -> (r: Self) {
        match v {
            Service::All => R_SVC_ALL,
            Service::Email => R_SVC_EMAIL,
        }
    }
}

impl vstd::std_specs::convert::FromSpecImpl<Service> for u64 {
    open spec fn obeys_from_spec() -> bool {
        true
    }

    open spec fn from_spec(v: Service) -> Self {
        v.bit()
    }
}

impl VerifySignature for Signature {
    fn signature(&self) -> (r: &[u8])
        ensures
            r@ == self.b@,
    {
        self.b.as_slice()
    }

    fn algorithm(&self) -> (r: Algorithm)
        ensures
            r == self.a,
    {
        self.a
    }

    fn selector(&self) -> (r: &str)
        ensures
            r@ == self.s@,
    {
        self.s.as_str()
    }

    fn domain(&self) -> (r: &str)
        ensures
            r@ == self.d@,
    {
        self.d.as_str()
    }
}

impl Signature {
    /// The agent or user identity (`i=`); empty when the signature has none.
    pub fn identity(&self) -> (r: &str)
        ensures
            r@ == self.i@,
    {
        self.i.as_str()
    }

    /// The body hash (`bh=`).
    pub fn body_hash(&self) -> (r: &[u8])
        ensures
            r@ == self.bh@,
    {
        self.bh.as_slice()
    }

    /// Whether the signature has expired at the time `now`.
    pub fn is_expired(&self, now: u64) -> (r: bool)
        ensures
            r == self@.expired(now),
    {
        self.x != 0 && (self.x < self.t || self.x < now)
    }
}

impl<'x> DkimOutput<'x> {
    /// What every output starts from: a result, and nothing else known.
    pub open spec fn bare(self, result: DkimResult) -> bool {
        &&& self.result == result
        &&& self.signature is None
        &&& self.report is None
        &&& !self.is_atps
    }

    /// The signature verified.
    pub fn pass() -> (r: Self)
        ensures
            r.bare(DkimResult::Pass),
    {
        DkimOutput { result: DkimResult::Pass, signature: None, report: None, is_atps: false }
    }

    /// The signature can never verify, for the reason given.
    pub fn perm_err(err: Error) -> (r: Self)
        ensures
            r.bare(DkimResult::PermError(err)),
    {
        DkimOutput { result: DkimResult::PermError(err), signature: None, report: None, is_atps: false }
    }

    /// The signature could not be evaluated now, for the reason given.
    pub fn temp_err(err: Error) -> (r: Self)
        ensures
            r.bare(DkimResult::TempError(err)),
    {
        DkimOutput { result: DkimResult::TempError(err), signature: None, report: None, is_atps: false }
    }

    /// The signature is well formed and did not verify, for the reason given.
    pub fn fail(err: Error) -> (r: Self)
        ensures
            r.bare(DkimResult::Fail(err)),
    {
        DkimOutput { result: DkimResult::Fail(err), signature: None, report: None, is_atps: false }
    }

    /// There was nothing to judge, for the reason given.
    pub fn neutral(err: Error) -> (r: Self)
        ensures
            r.bare(DkimResult::Neutral(err)),
    {
        DkimOutput { result: DkimResult::Neutral(err), signature: None, report: None, is_atps: false }
    }

    /// The output for a failed key lookup: temporary when the resolver
    /// failed, permanent for every other reason.
    pub fn dns_error(err: Error) -> (r: Self)
        ensures
            err is DnsError ==> r.bare(DkimResult::TempError(err)),
            !(err is DnsError) ==> r.bare(DkimResult::PermError(err)),
    {
        if matches!(&err, Error::DnsError(_)) {
            DkimOutput::temp_err(err)
        } else {
            DkimOutput::perm_err(err)
        }
    }

    /// The same output, naming the signature it is about.
    pub fn with_signature(self, signature: &'x Signature) -> (r: Self)
        ensures
            r.result == self.result,
            r.signature == Some(signature),
            r.report == self.report,
            r.is_atps == self.is_atps,
    {
        let mut out = self;
        out.signature = Some(signature);
        out
    }

    /// The same output, marked as reached through a third-party authorization.
    pub fn with_atps(self) -> (r: Self)
        ensures
            r.result == self.result,
            r.signature == self.signature,
            r.report == self.report,
            r.is_atps,
    {
        let mut out = self;
        out.is_atps = true;
        out
    }

    /// The result.
    pub fn result(&self) -> (r: &DkimResult)
        ensures
            *r == self.result,
    {
        &self.result
    }

    /// The signature this output is about, if it could be parsed.
    pub fn signature(&self) -> (r: Option<&Signature>)
        ensures
            r == self.signature,
    {
        self.signature
    }

    /// The address failure reports go to, if the domain asks for them.
    pub fn failure_report_addr(&self) -> (r: Option<&str>)
        ensures
            r is Some <==> self.report is Some,
            r is Some ==> r->0@ == self.report->0@,
    {
        match &self.report {
            Some(s) => Some(s.as_str()),
            None => None,
        }
    }
}

impl<'x> ArcOutput<'x> {
    /// The chain verdict.
    pub fn result(&self) -> (r: &DkimResult)
        ensures
            *r == self.result,
    {
        &self.result
    }

    /// The header sets of the chain, by instance.
    pub fn sets(&self) -> (r: &[ArcSet<'x>])
        ensures
            r@ == self.set@,
    {
        self.set.as_slice()
    }
}

impl DkimResult {
    /// The result that an error stands for.
    ///
    /// A resolver that failed for now is a temporary error. A signature or
    /// a chain that is well formed and did not verify (it has expired, the
    /// body hash or the signature bytes are not the right ones, a link of
    /// the chain does not hold) is a failure. Nothing to judge is neutral.
    /// Every other error is permanent.
    pub open spec fn of_error(err: Error) -> DkimResult {
        match err {
            Error::DnsError(_) => DkimResult::TempError(err),
            Error::SignatureExpired
            | Error::BodyHashMismatch
            | Error::BadSignature
            | Error::ArcBrokenChain => DkimResult::Fail(err),
            Error::NoSignature | Error::NoArcSet => DkimResult::Neutral(err),
            _ => DkimResult::PermError(err),
        }
    }
}

impl From<Error> for DkimResult {
    fn from(err: Error) -> (r: Self) {
        match err {
            Error::DnsError(_) => DkimResult::TempError(err),
            Error::SignatureExpired
            | Error::BodyHashMismatch
            | Error::BadSignature
            | Error::ArcBrokenChain => DkimResult::Fail(err),
            Error::NoSignature | Error::NoArcSet => DkimResult::Neutral(err),
            _ => DkimResult::PermError(err),
        }
    }
}

impl vstd::std_specs::convert::FromSpecImpl<Error> for DkimResult {
    open spec fn obeys_from_spec() -> bool {
        true
    }

    open spec fn from_spec(err: Error) -> Self {
        DkimResult::of_error(err)
    }
}

} // verus!
