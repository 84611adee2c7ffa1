//! Judging the signatures of a message.
//!
//! The resolver and the cryptography are the caller's. Each signature is
//! judged from what the caller's lookup of its key gave, independently of
//! every other signature of the message.

use vstd::prelude::*;
use vstd::slice::slice_subrange;
use crate::common::crypto::{
    ask_digest, ask_verdict, verifier_hashes, verifier_judges, Algorithm, HashAlgorithm, Verifier,
};
use crate::dkim::canonicalize::{
    bytes_eq, canonical_body, canonical_header, canonicalize_body, canonicalize_header, CR, LF,
};
use crate::dkim::headers::{
    canonicalize_signed_fields, headers_view, names_match, same_name, signed_fields, Field, Header,
};
use crate::dkim::parse::{
    ascii, domain_of_identity, domains_match, first_byte, identity_domain, is_text, same_domain,
    scan_byte, signature_of, trim, trimmed, EQUALS, SEMICOLON,
};
use crate::common::base32::base32_encode;
use crate::dkim::canonicalize::{lower_seq, to_lower};
use crate::dkim::records::{
    atps_of, key_record_of, report_record_of, text_bytes, DomainKey, DomainKeyView,
};
use crate::dkim::DomainKeyReport;
use crate::dkim::sign::hashed_body;
use crate::dkim::Atps;
use crate::dkim::{
    Canonicalization, Signature, SignatureView, R_FLAG_MATCH_DOMAIN, R_SVC_ALL, R_SVC_EMAIL,
};
use crate::{DkimOutput, DkimResult, DnsFailure, Error};

verus! {

/// What a lookup of TXT records gave: the records' texts, or a failure.
pub type Lookup = Result<Vec<Vec<u8>>, DnsFailure>;

/// A lookup as plain values.
pub type LookupView = Result<Seq<Seq<u8>>, DnsFailure>;

/// The view of a lookup.
pub open spec fn lookup_view(lookup: Lookup) -> LookupView {
    match lookup {
        Ok(records) => Ok(Seq::new(records@.len(), |k: int| records@[k]@)),
        Err(failure) => Err(failure),
    }
}

/// Where the value of the first `b=` tag of `s` from `p` on starts and ends.
pub open spec fn signature_bytes_range(s: Seq<u8>, p: int) -> Option<(int, int)>
    decreases s.len() - p,
{
    if p < 0 || p > s.len() {
        None
    } else {
        let e = first_byte(s, SEMICOLON, p, s.len() as int);
        let q = first_byte(s, EQUALS, p, e);
        if q < e && trimmed(s, p, q) == ascii("b") {
            Some((q + 1, e))
        } else if p <= e < s.len() {
            signature_bytes_range(s, e + 1)
        } else {
            None
        }
    }
}

/// A signature header value with the value of its `b=` tag taken out, white
/// space around it included.
pub open spec fn without_signature_bytes(s: Seq<u8>) -> Seq<u8> {
    match signature_bytes_range(s, 0) {
        Some((a, e)) => s.subrange(0, a) + s.subrange(e, s.len() as int),
        None => s,
    }
}

/// A header value without the line terminator at its end.
pub open spec fn unterminated(v: Seq<u8>) -> Seq<u8> {
    if v.len() > 0 && v.last() == LF {
        if v.len() > 1 && v[v.len() - 2] == CR {
            v.take(v.len() - 2)
        } else {
            v.take(v.len() - 1)
        }
    } else {
        v
    }
}

/// What a signature must be a signature over: the canonical forms of the
/// fields that `h=` selects, then that of the signature's own field as it
/// stands in the message, without the value of `b=` and without its line
/// terminator.
pub open spec fn verification_input(headers: Seq<Field>, own: Field, sig: SignatureView) -> Seq<u8> {
    signed_fields(headers, sig.h, sig.ch) + canonical_header(
        own.0,
        unterminated(without_signature_bytes(own.1)),
        sig.ch,
    )
}

/// What a verifier hashes of a body: its canonical form, or the first
/// `limit` bytes of it if `limit` is not 0. There is nothing to hash if the
/// canonical body is shorter than `limit`.
pub open spec fn body_hash_input(body: Seq<u8>, cb: Canonicalization, limit: u64) -> Option<Seq<u8>> {
    let canonical = canonical_body(body, cb);
    if limit == 0 {
        Some(canonical)
    } else if limit <= canonical.len() {
        Some(canonical.take(limit as int))
    } else {
        None
    }
}

/// Whether all of `records` are the same text.
pub open spec fn all_same(records: Seq<Seq<u8>>) -> bool {
    forall|k: int| 0 <= k < records.len() ==> #[trigger] records[k] == records[0]
}

/// The one key record that a lookup gave.
///
/// A resolver that failed for now is a temporary error. No record, or a
/// name that does not exist, is the permanent error `NoKeyFound`; records
/// that differ are the permanent error `AmbiguousKey`.
pub open spec fn key_record(lookup: LookupView) -> Result<Seq<u8>, DkimResult> {
    match lookup {
        Err(DnsFailure::NxDomain) => Err(DkimResult::PermError(Error::NoKeyFound)),
        Err(failure) => Err(DkimResult::TempError(Error::DnsError(failure))),
        Ok(records) => if records.len() == 0 {
            Err(DkimResult::PermError(Error::NoKeyFound))
        } else if !all_same(records) {
            Err(DkimResult::PermError(Error::AmbiguousKey))
        } else {
            Ok(records[0])
        },
    }
}

/// Why the key `key` may not be used for the signature `sig`, if it may not:
/// its family is not that of the signature's algorithm, it is not for email,
/// or it demands the identity to be in the signing domain itself and the
/// identity is in another.
pub open spec fn policy_failure(sig: SignatureView, key: DomainKeyView) -> Option<Error> {
    if key.k != sig.a.key_type() {
        Some(Error::AlgorithmMismatch)
    } else if key.f & (R_SVC_ALL | R_SVC_EMAIL) == 0 {
        Some(Error::ServiceNotAllowed)
    } else if key.f & R_FLAG_MATCH_DOMAIN != 0 && sig.i.len() > 0 && !same_domain(
        identity_domain(sig.i),
        sig.d,
    ) {
        Some(Error::StrictSubdomainViolation)
    } else {
        None
    }
}

/// The key that the signature `sig` is to be verified with at `now`, or the
/// result that stands without any cryptography: an expired signature fails,
/// then the lookup is judged, then the key record, then the key's policy.
pub open spec fn key_for(sig: SignatureView, lookup: LookupView, now: u64) -> Result<
    DomainKeyView,
    DkimResult,
> {
    if sig.expired(now) {
        Err(DkimResult::Fail(Error::SignatureExpired))
    } else {
        match key_record(lookup) {
            Err(result) => Err(result),
            Ok(txt) => match key_record_of(txt) {
                Err(e) => Err(DkimResult::PermError(e)),
                Ok(key) => match policy_failure(sig, key) {
                    Some(e) => Err(DkimResult::PermError(e)),
                    None => Ok(key),
                },
            },
        }
    }
}

/// The result for a signature whose key may be used, from the digest of the
/// body and the key's verdict on the signature bytes. A digest that is not
/// `bh=` fails the signature whatever the verdict.
pub open spec fn conclusion(sig: SignatureView, digest: Seq<u8>, accepted: bool) -> DkimResult {
    if digest != sig.bh {
        DkimResult::Fail(Error::BodyHashMismatch)
    } else if !accepted {
        DkimResult::Fail(Error::BadSignature)
    } else {
        DkimResult::Pass
    }
}

/// The name at which the key of a signature is published.
pub open spec fn key_query_name(sig: SignatureView) -> Seq<u8> {
    sig.s + ascii("._domainkey.") + sig.d
}

/// Whether a header field is a DKIM signature.
pub open spec fn is_signature_field(field: Field) -> bool {
    same_name(field.0, ascii("DKIM-Signature"))
}

fn find_signature_bytes(s: &[u8]) -> (r: Option<(usize, usize)>)
    ensures
        match r {
            Some((a, e)) => a <= e <= s@.len() && signature_bytes_range(s@, 0) == Some(
                (a as int, e as int),
            ),
            None => signature_bytes_range(s@, 0) is None,
        },
{
    let mut p: usize = 0;
    loop
        invariant
            p <= s@.len(),
            signature_bytes_range(s@, p as int) == signature_bytes_range(s@, 0),
        decreases s@.len() - p,
    {
        let e = scan_byte(s, SEMICOLON, p, s.len());
        let q = scan_byte(s, EQUALS, p, e);
        if q < e && is_text(trim(s, p, q), "b") {
            return Some((q + 1, e));
        }
        if e < s.len() {
            p = e + 1;
        } else {
            return None;
        }
    }
}

/// A signature header value with the value of its `b=` tag taken out.
pub fn strip_signature_bytes(value: &[u8]) -> (out: Vec<u8>)
    ensures
        out@ == without_signature_bytes(value@),
{
    let mut out: Vec<u8> = Vec::new();
    match find_signature_bytes(value) {
        Some((a, e)) => {
            out.extend_from_slice(slice_subrange(value, 0, a));
            out.extend_from_slice(slice_subrange(value, e, value.len()));
            proof {
                assert(out@ =~= value@.subrange(0, a as int) + value@.subrange(
                    e as int,
                    value@.len() as int,
                ));
            }
        },
        None => {
            out.extend_from_slice(value);
            proof {
                assert(out@ =~= value@);
            }
        },
    }
    out
}

/// Takes the line terminator at the end of a header value away.
pub fn strip_terminator(v: &mut Vec<u8>)
    ensures
        final(v)@ == unterminated(old(v)@),
{
    let n = v.len();
    if n > 0 && v[n - 1] == LF {
        if n > 1 && v[n - 2] == CR {
            v.truncate(n - 2);
        } else {
            v.truncate(n - 1);
        }
    }
}

impl Signature {
    /// What this signature must be a signature over, on a message with the
    /// header fields `headers` in which it stands as the field `own`.
    pub fn verification_input(&self, headers: &[Header<'_>], own: &Header<'_>) -> (out: Vec<u8>)
        ensures
            out@ == verification_input(headers_view(headers@), (own.name@, own.value@), self@),
    {
        let mut out = canonicalize_signed_fields(headers, &self.h, self.ch);
        let mut value = strip_signature_bytes(own.value);
        strip_terminator(&mut value);
        let field = canonicalize_header(own.name, value.as_slice(), self.ch);
        out.extend_from_slice(field.as_slice());
        out
    }

    /// The name at which the key of this signature is published.
    pub fn key_query_name(&self) -> (out: Vec<u8>)
        ensures
            out@ == key_query_name(self@),
    {
        let mut out: Vec<u8> = Vec::new();
        out.extend_from_slice(self.s.as_str().as_bytes());
        out.extend_from_slice("._domainkey.".as_bytes());
        out.extend_from_slice(self.d.as_str().as_bytes());
        proof {
            assert(out@ =~= key_query_name(self@));
        }
        out
    }

    /// Why `key` may not be used for this signature, if it may not.
    pub fn policy_failure(&self, key: &DomainKey) -> (r: Option<Error>)
        ensures
            r == policy_failure(self@, key@),
    {
        if key.k != self.a.family() {
            Some(Error::AlgorithmMismatch)
        } else if !key.has_flag(R_SVC_ALL | R_SVC_EMAIL) {
            Some(Error::ServiceNotAllowed)
        } else if key.has_flag(R_FLAG_MATCH_DOMAIN) && self.i.as_str().as_bytes().len() > 0
            && !domains_match(
            domain_of_identity(self.i.as_str().as_bytes()),
            self.d.as_str().as_bytes(),
        ) {
            Some(Error::StrictSubdomainViolation)
        } else {
            None
        }
    }

    /// The key that this signature is to be verified with at `now`, or the
    /// result that stands without any cryptography.
    pub fn key_for(&self, lookup: &Lookup, now: u64) -> (r: Result<DomainKey, DkimResult>)
        ensures
            match r {
                Ok(key) => key_for(self@, lookup_view(*lookup), now) == Ok::<
                    DomainKeyView,
                    DkimResult,
                >(key@),
                Err(result) => key_for(self@, lookup_view(*lookup), now) == Err::<
                    DomainKeyView,
                    DkimResult,
                >(result),
            },
    {
        if self.is_expired(now) {
            return Err(DkimResult::Fail(Error::SignatureExpired));
        }
        let txt = match select_record(lookup) {
            Ok(txt) => txt,
            Err(result) => {
                return Err(result);
            },
        };
        let key = match DomainKey::parse(txt) {
            Ok(key) => key,
            Err(e) => {
                return Err(DkimResult::PermError(e));
            },
        };
        match self.policy_failure(&key) {
            Some(e) => Err(DkimResult::PermError(e)),
            None => Ok(key),
        }
    }

    /// The result for this signature, whose key may be used, from the digest
    /// of the body and the key's verdict on the signature bytes.
    pub fn conclude(&self, digest: &[u8], accepted: bool) -> (r: DkimResult)
        ensures
            r == conclusion(self@, digest@, accepted),
    {
        if !bytes_eq(digest, self.bh.as_slice()) {
            DkimResult::Fail(Error::BodyHashMismatch)
        } else if !accepted {
            DkimResult::Fail(Error::BadSignature)
        } else {
            DkimResult::Pass
        }
    }
}

/// The one key record that a lookup gave.
pub fn select_record(lookup: &Lookup) -> (r: Result<&[u8], DkimResult>)
    ensures
        match r {
            Ok(txt) => key_record(lookup_view(*lookup)) == Ok::<Seq<u8>, DkimResult>(txt@),
            Err(result) => key_record(lookup_view(*lookup)) == Err::<Seq<u8>, DkimResult>(result),
        },
{
    match lookup {
        Err(DnsFailure::NxDomain) => Err(DkimResult::PermError(Error::NoKeyFound)),
        Err(failure) => Err(DkimResult::TempError(Error::DnsError(*failure))),
        Ok(records) => {
            let ghost all = Seq::new(records@.len(), |k: int| records@[k]@);
            if records.len() == 0 {
                return Err(DkimResult::PermError(Error::NoKeyFound));
            }
            let mut k: usize = 1;
            while k < records.len()
                invariant
                    1 <= k <= records@.len(),
                    *lookup == Ok::<Vec<Vec<u8>>, DnsFailure>(*records),
                    all == Seq::new(records@.len(), |k: int| records@[k]@),
                    forall|j: int| 0 <= j < k ==> #[trigger] all[j] == all[0],
                decreases records@.len() - k,
            {
                if !bytes_eq(records[k].as_slice(), records[0].as_slice()) {
                    proof {
                        assert(all[k as int] != all[0]);
                    }
                    return Err(DkimResult::PermError(Error::AmbiguousKey));
                }
                k += 1;
            }
            Ok(records[0].as_slice())
        },
    }
}

/// What a verifier hashes of a body, if the body is as long as `limit` asks.
pub fn body_to_verify(body: &[u8], cb: Canonicalization, limit: u64) -> (r: Option<Vec<u8>>)
    ensures
        match r {
            Some(out) => body_hash_input(body@, cb, limit) == Some(out@),
            None => body_hash_input(body@, cb, limit) is None,
        },
{
    let mut canonical = canonicalize_body(body, cb);
    if limit == 0 {
        Some(canonical)
    } else if limit <= canonical.len() as u64 {
        canonical.truncate(limit as usize);
        Some(canonical)
    } else {
        None
    }
}

/// Whether a header field is a DKIM signature.
pub fn is_signature_header(header: &Header<'_>) -> (r: bool)
    ensures
        r == is_signature_field((header.name@, header.value@)),
{
    names_match(header.name, "DKIM-Signature".as_bytes())
}

/// A signature header field of a message and what reading it gave.
#[derive(Debug, PartialEq, Eq)]
pub struct Found<'a> {
    /// The header field.
    pub header: Header<'a>,
    /// The signature it states, or why it states none.
    pub signature: Result<Signature, Error>,
}

/// The indexes of the signature fields among `headers`, top to bottom.
pub open spec fn signature_fields(headers: Seq<Field>) -> Seq<int>
    decreases headers.len(),
{
    if headers.len() == 0 {
        Seq::<int>::empty()
    } else if is_signature_field(headers.last()) {
        signature_fields(headers.drop_last()).push(headers.len() - 1)
    } else {
        signature_fields(headers.drop_last())
    }
}

/// Whether `found` is what reading the signature field `field` gives.
#[verifier::opaque]
pub open spec fn is_reading_of(found: Found<'_>, field: Field) -> bool {
    &&& (found.header.name@, found.header.value@) == field
    &&& match found.signature {
        Ok(sig) => signature_of(field.1) == Ok::<SignatureView, Error>(sig@),
        Err(e) => signature_of(field.1) == Err::<SignatureView, Error>(e),
    }
}

/// The address that failure reports on a signature go to: that of the key
/// record, if the key could be used, the signature asks for reports, and the
/// signature did not pass.
pub open spec fn report_address(
    sig: SignatureView,
    key: Result<DomainKeyView, DkimResult>,
    result: DkimResult,
) -> Option<Seq<u8>> {
    match key {
        Ok(key) => match key.report {
            Some(report) => if sig.r && result != DkimResult::Pass {
                Some(report.ra)
            } else {
                None
            },
            None => None,
        },
        Err(_) => None,
    }
}

/// Whether `result` is what asking `verifier` gives for the signature
/// `sig`, whose key `public_key` may be used: the [`conclusion`] from the
/// verifier's digest of `hashed` under the hash function of the signature's
/// algorithm and, where that digest is the signed body hash, from the
/// verifier's verdict on the signature bytes over `input`. Where the digest
/// is another, the verifier is not asked for a verdict.
pub open spec fn is_conclusion<V: Verifier>(
    verifier: &V,
    result: DkimResult,
    sig: SignatureView,
    public_key: Seq<u8>,
    hashed: Seq<u8>,
    input: Seq<u8>,
) -> bool {
    exists|digest: Seq<u8>, accepted: bool|
        #![trigger verifier_hashes(verifier, sig.a.hash_algorithm(), hashed, digest), conclusion(sig, digest, accepted)]
        {
            &&& verifier_hashes(verifier, sig.a.hash_algorithm(), hashed, digest)
            &&& digest == sig.bh ==> verifier_judges(
                verifier,
                sig.a,
                public_key,
                input,
                sig.b,
                accepted,
            )
            &&& result == conclusion(sig, digest, accepted)
        }
}

/// Whether `out` is a judgement of the signature `sig`, which stands in the
/// field `own` of a message with the fields `headers` and the body `body`,
/// from the lookup of its key and at the time `now`.
///
/// Where [`key_for`] gives a result, that is the result, and the verifier
/// is not asked. Otherwise a body shorter than `l=` asks is the permanent
/// error `SignatureLength`, and else the result is what asking the verifier
/// gives for [`body_hash_input`] and [`verification_input`]: see
/// [`is_conclusion`].
pub open spec fn is_judgement<V: Verifier>(
    verifier: &V,
    out: DkimOutput<'_>,
    sig: &Signature,
    headers: Seq<Field>,
    own: Field,
    body: Seq<u8>,
    lookup: LookupView,
    now: u64,
) -> bool {
    &&& out.signature == Some(sig)
    &&& !out.is_atps
    &&& text_bytes(out.report) == report_address(sig@, key_for(sig@, lookup, now), out.result)
    &&& match key_for(sig@, lookup, now) {
        Err(result) => out.result == result,
        Ok(key) => match body_hash_input(body, sig@.cb, sig@.l) {
            None => out.result == DkimResult::PermError(Error::SignatureLength),
            Some(hashed) => is_conclusion(
                verifier,
                out.result,
                sig@,
                key.p,
                hashed,
                verification_input(headers, own, sig@),
            ),
        },
    }
}

/// The lookup for the signature at index `k`: a lookup that is not there
/// counts as one that got no answer in time.
pub open spec fn lookup_at(lookups: Seq<Lookup>, k: int) -> LookupView {
    if 0 <= k < lookups.len() {
        lookup_view(lookups[k])
    } else {
        Err(DnsFailure::Timeout)
    }
}

/// Whether `out` is the outcome for the signature field that `found` is the
/// reading of: a permanent error with the parser's reason where the field
/// states no signature, else a judgement of the signature.
pub open spec fn is_outcome<V: Verifier>(
    verifier: &V,
    out: DkimOutput<'_>,
    found: &Found<'_>,
    headers: Seq<Field>,
    body: Seq<u8>,
    lookup: LookupView,
    now: u64,
) -> bool {
    match &found.signature {
        Err(e) => out.bare(DkimResult::PermError(*e)),
        Ok(sig) => is_judgement(
            verifier,
            out,
            sig,
            headers,
            (found.header.name@, found.header.value@),
            body,
            lookup,
            now,
        ),
    }
}

/// An expired signature fails with `SignatureExpired`, whatever the lookup
/// of its key gave: never a permanent or temporary error.
pub proof fn lemma_expired_signature_fails(sig: SignatureView, lookup: LookupView, now: u64)
    requires
        sig.x != 0,
        sig.x < sig.t || sig.x < now,
    ensures
        key_for(sig, lookup, now) == Err::<DomainKeyView, DkimResult>(
            DkimResult::Fail(Error::SignatureExpired),
        ),
{
}

/// A digest other than the signed body hash fails the signature with
/// `BodyHashMismatch`, whatever the key says of the signature bytes; and
/// nothing else gives that result.
pub proof fn lemma_changed_digest_fails(sig: SignatureView, digest: Seq<u8>, accepted: bool)
    ensures
        digest != sig.bh <==> conclusion(sig, digest, accepted) == DkimResult::Fail(
            Error::BodyHashMismatch,
        ),
        conclusion(sig, digest, accepted) == DkimResult::Pass <==> digest == sig.bh && accepted,
{
}

fn read_signature<'a>(header: Header<'a>) -> (r: Found<'a>)
    ensures
        is_reading_of(r, (header.name@, header.value@)),
{
    let signature = Signature::parse(header.value);
    proof {
        reveal(is_reading_of);
    }
    Found { header, signature }
}

/// A changed body fails the signature with `BodyHashMismatch`: where no
/// digest that the verifier gives for what is hashed of the body is the
/// signed body hash, that is what the verifier concludes, whatever else it
/// is handed.
pub proof fn lemma_changed_body_fails<V: Verifier>(
    verifier: &V,
    result: DkimResult,
    sig: SignatureView,
    public_key: Seq<u8>,
    hashed: Seq<u8>,
    input: Seq<u8>,
)
    requires
        is_conclusion(verifier, result, sig, public_key, hashed, input),
        forall|digest: Seq<u8>| #[trigger]
            verifier_hashes(verifier, sig.a.hash_algorithm(), hashed, digest) ==> digest != sig.bh,
    ensures
        result == DkimResult::Fail(Error::BodyHashMismatch),
{
}

/// Whether `verifier` answers one question one way: asked twice for the
/// digest of the same data, or for its verdict on the same signature bytes
/// over the same data by the same key, it gives the same answer.
pub open spec fn answers_one_way<V: Verifier>(verifier: &V) -> bool {
    &&& forall|algorithm: HashAlgorithm, data: Seq<u8>, one: Seq<u8>, other: Seq<u8>|
        #![trigger verifier_hashes(verifier, algorithm, data, one), verifier_hashes(verifier, algorithm, data, other)]
        verifier_hashes(verifier, algorithm, data, one) && verifier_hashes(
            verifier,
            algorithm,
            data,
            other,
        ) ==> one == other
    &&& forall|
        algorithm: Algorithm,
        key: Seq<u8>,
        data: Seq<u8>,
        bytes: Seq<u8>,
        one: bool,
        other: bool,
    |
        #![trigger verifier_judges(verifier, algorithm, key, data, bytes, one), verifier_judges(verifier, algorithm, key, data, bytes, other)]
        verifier_judges(verifier, algorithm, key, data, bytes, one) && verifier_judges(
            verifier,
            algorithm,
            key,
            data,
            bytes,
            other,
        ) ==> one == other
}

/// A verifier that answers one question one way concludes one way: from
/// the same key, the same hashed bytes and the same signed bytes it gives a
/// signature the same result, however often it is asked.
pub proof fn lemma_one_conclusion<V: Verifier>(
    verifier: &V,
    sig: SignatureView,
    public_key: Seq<u8>,
    hashed: Seq<u8>,
    input: Seq<u8>,
    first: DkimResult,
    second: DkimResult,
)
    requires
        answers_one_way(verifier),
        is_conclusion(verifier, first, sig, public_key, hashed, input),
        is_conclusion(verifier, second, sig, public_key, hashed, input),
    ensures
        first == second,
{
    let h = sig.a.hash_algorithm();
    let (d1, a1) = choose|digest: Seq<u8>, accepted: bool|
        #![trigger verifier_hashes(verifier, h, hashed, digest), conclusion(sig, digest, accepted)]
        {
            &&& verifier_hashes(verifier, h, hashed, digest)
            &&& digest == sig.bh ==> verifier_judges(
                verifier,
                sig.a,
                public_key,
                input,
                sig.b,
                accepted,
            )
            &&& first == conclusion(sig, digest, accepted)
        };
    let (d2, a2) = choose|digest: Seq<u8>, accepted: bool|
        #![trigger verifier_hashes(verifier, h, hashed, digest), conclusion(sig, digest, accepted)]
        {
            &&& verifier_hashes(verifier, h, hashed, digest)
            &&& digest == sig.bh ==> verifier_judges(
                verifier,
                sig.a,
                public_key,
                input,
                sig.b,
                accepted,
            )
            &&& second == conclusion(sig, digest, accepted)
        };
    assert(verifier_hashes(verifier, h, hashed, d1) && verifier_hashes(verifier, h, hashed, d2));
    assert(d1 == d2);
    if d1 == sig.bh {
        assert(verifier_judges(verifier, sig.a, public_key, input, sig.b, a1)
            && verifier_judges(verifier, sig.a, public_key, input, sig.b, a2));
        assert(a1 == a2);
    }
}

/// A body and its canonical form are hashed alike: what a verifier hashes
/// of the canonical form of a body is what it hashes of the body.
pub proof fn lemma_canonical_body_hashed_alike(body: Seq<u8>, cb: Canonicalization, limit: u64)
    ensures
        body_hash_input(canonical_body(body, cb), cb, limit) == body_hash_input(body, cb, limit),
{
    crate::dkim::canonicalize::lemma_canonical_body_idempotent(body, cb);
}

/// A signature is judged alike on a body and on its canonical form: a
/// verifier that answers one question one way gives the signature on a
/// message whose body was replaced by its canonical form, all else equal,
/// the result that it gives it on the message.
pub proof fn lemma_canonical_body_judged_alike<V: Verifier>(
    verifier: &V,
    sig: SignatureView,
    public_key: Seq<u8>,
    body: Seq<u8>,
    input: Seq<u8>,
    first: DkimResult,
    second: DkimResult,
)
    requires
        answers_one_way(verifier),
        body_hash_input(body, sig.cb, sig.l) is Some,
        is_conclusion(
            verifier,
            first,
            sig,
            public_key,
            body_hash_input(body, sig.cb, sig.l)->0,
            input,
        ),
        is_conclusion(
            verifier,
            second,
            sig,
            public_key,
            body_hash_input(canonical_body(body, sig.cb), sig.cb, sig.l)->0,
            input,
        ),
    ensures
        first == second,
{
    lemma_canonical_body_hashed_alike(body, sig.cb, sig.l);
    lemma_one_conclusion(
        verifier,
        sig,
        public_key,
        body_hash_input(body, sig.cb, sig.l)->0,
        input,
        first,
        second,
    );
}

/// A signature is judged alike on a message and on the message with its
/// body replaced by the canonical form of the body: a verifier that answers
/// one question one way gives both judgements the same result.
pub proof fn lemma_canonical_body_outcome_alike<V: Verifier>(
    verifier: &V,
    sig: &Signature,
    headers: Seq<Field>,
    own: Field,
    body: Seq<u8>,
    lookup: LookupView,
    now: u64,
    first: DkimOutput<'_>,
    second: DkimOutput<'_>,
)
    requires
        answers_one_way(verifier),
        is_judgement(verifier, first, sig, headers, own, body, lookup, now),
        is_judgement(
            verifier,
            second,
            sig,
            headers,
            own,
            canonical_body(body, sig@.cb),
            lookup,
            now,
        ),
    ensures
        first.result == second.result,
{
    lemma_canonical_body_hashed_alike(body, sig@.cb, sig@.l);
    if key_for(sig@, lookup, now) is Ok && body_hash_input(body, sig@.cb, sig@.l) is Some {
        lemma_one_conclusion(
            verifier,
            sig@,
            key_for(sig@, lookup, now)->Ok_0.p,
            body_hash_input(body, sig@.cb, sig@.l)->0,
            verification_input(headers, own, sig@),
            first.result,
            second.result,
        );
    }
}

/// The signature fields among `headers`, top to bottom, each with what
/// reading it gave.
pub fn find_signatures<'a>(headers: &[Header<'a>]) -> (r: Vec<Found<'a>>)
    ensures
        r@.len() == signature_fields(headers_view(headers@)).len(),
        forall|k: int|
            0 <= k < r@.len() ==> is_reading_of(
                #[trigger] r@[k],
                headers_view(headers@)[signature_fields(headers_view(headers@))[k]],
            ),
{
    let ghost fields = headers_view(headers@);
    let ghost mut at: Seq<int> = Seq::<int>::empty();
    let mut out: Vec<Found<'a>> = Vec::new();
    let mut i: usize = 0;
    while i < headers.len()
        invariant
            i <= headers@.len(),
            fields == headers_view(headers@),
            at == signature_fields(fields.take(i as int)),
            out@.len() == at.len(),
            forall|k: int| 0 <= k < at.len() ==> 0 <= #[trigger] at[k] < i,
            forall|k: int| 0 <= k < out@.len() ==> is_reading_of(#[trigger] out@[k], fields[at[k]]),
        decreases headers@.len() - i,
    {
        proof {
            assert(fields.take(i + 1).drop_last() =~= fields.take(i as int));
            assert(fields.take(i + 1).last() == fields[i as int]);
        }
        let header = headers[i];
        if is_signature_header(&header) {
            let found = read_signature(header);
            out.push(found);
            proof {
                at = at.push(i as int);
            }
        }
        i += 1;
    }
    proof {
        assert(fields.take(headers@.len() as int) =~= fields);
    }
    out
}

/// Judges one signature of a message.
pub fn verify_signature<'x, V: Verifier>(
    verifier: &V,
    headers: &[Header<'_>],
    body: &[u8],
    own: &Header<'_>,
    sig: &'x Signature,
    lookup: &Lookup,
    now: u64,
) -> (out: DkimOutput<'x>)
    ensures
        is_judgement(
            verifier,
            out,
            sig,
            headers_view(headers@),
            (own.name@, own.value@),
            body@,
            lookup_view(*lookup),
            now,
        ),
{
    let key = match sig.key_for(lookup, now) {
        Ok(key) => key,
        Err(result) => {
            return DkimOutput { result, signature: Some(sig), report: None, is_atps: false };
        },
    };
    let result = match body_to_verify(body, sig.cb, sig.l) {
        None => DkimResult::PermError(Error::SignatureLength),
        Some(hashed) => {
            let digest = ask_digest(verifier, sig.a.into(), hashed.as_slice());
            let accepted = if bytes_eq(digest.as_slice(), sig.bh.as_slice()) {
                let input = sig.verification_input(headers, own);
                ask_verdict(
                    verifier,
                    sig.a,
                    key.p.as_slice(),
                    input.as_slice(),
                    sig.b.as_slice(),
                )
            } else {
                false
            };
            let result = sig.conclude(digest.as_slice(), accepted);
            proof {
                assert(verifier_hashes(verifier, sig@.a.hash_algorithm(), hashed@, digest@));
                assert(result == conclusion(sig@, digest@, accepted));
            }
            result
        },
    };
    let report = match &key.report {
        Some(report) => {
            if sig.r && result != DkimResult::Pass {
                Some(report.ra.clone())
            } else {
                None
            }
        },
        None => None,
    };
    DkimOutput { result, signature: Some(sig), report, is_atps: false }
}

/// Judges every signature of a message, each from the lookup at its own
/// index and independently of the others.
///
/// The outcomes stand in the order of the signature fields. A message
/// without a signature field has the one outcome `Neutral(NoSignature)`.
pub fn verify<'x, V: Verifier>(
    verifier: &V,
    headers: &[Header<'_>],
    body: &[u8],
    found: &'x Vec<Found<'_>>,
    lookups: &Vec<Lookup>,
    now: u64,
) -> (out: Vec<DkimOutput<'x>>)
    ensures
        found@.len() == 0 ==> out@.len() == 1 && out@[0].bare(
            DkimResult::Neutral(Error::NoSignature),
        ),
        found@.len() > 0 ==> out@.len() == found@.len(),
        found@.len() > 0 ==> forall|k: int|
            0 <= k < found@.len() ==> is_outcome(
                verifier,
                #[trigger] out@[k],
                &found@[k],
                headers_view(headers@),
                body@,
                lookup_at(lookups@, k),
                now,
            ),
{
    let mut out: Vec<DkimOutput<'x>> = Vec::new();
    if found.len() == 0 {
        out.push(DkimOutput::neutral(Error::NoSignature));
        return out;
    }
    let unanswered: Lookup = Err(DnsFailure::Timeout);
    let mut k: usize = 0;
    while k < found.len()
        invariant
            k <= found@.len(),
            out@.len() == k,
            unanswered == Err::<Vec<Vec<u8>>, DnsFailure>(DnsFailure::Timeout),
            forall|j: int|
                0 <= j < k ==> is_outcome(
                    verifier,
                    #[trigger] out@[j],
                    &found@[j],
                    headers_view(headers@),
                    body@,
                    lookup_at(lookups@, j),
                    now,
                ),
        decreases found@.len() - k,
    {
        let one = match &found[k].signature {
            Err(e) => DkimOutput::perm_err(*e),
            Ok(sig) => {
                let lookup = if k < lookups.len() {
                    &lookups[k]
                } else {
                    &unanswered
                };
                verify_signature(verifier, headers, body, &found[k].header, sig, lookup, now)
            },
        };
        out.push(one);
        k += 1;
    }
    out
}

/// With an unchanged body the verifier hashes what the signer hashed: the
/// body length that a signature states selects exactly the bytes that went
/// into its body hash.
pub proof fn lemma_same_body_hashed(body: Seq<u8>, cb: Canonicalization, limit: u64)
    requires
        hashed_body(body, cb, limit).len() <= u64::MAX,
    ensures
        body_hash_input(
            body,
            cb,
            if limit == 0 {
                0
            } else {
                hashed_body(body, cb, limit).len() as u64
            },
        ) == Some(hashed_body(body, cb, limit)),
{
    let canonical = canonical_body(body, cb);
    assert(canonical.take(canonical.len() as int) =~= canonical);
    if limit != 0 && canonical.len() == 0 {
        assert(hashed_body(body, cb, limit) =~= canonical);
    }
}

/// What is hashed for the label of an ATPS query name: the signing domain
/// in lower case.
pub open spec fn atps_hash_input(sig: SignatureView) -> Seq<u8> {
    lower_seq(sig.d)
}

/// The name at which a third-party signature's authorization is published,
/// if the signature claims one: under the domain of `atps=`, with a label
/// that is the Base32 text of `digest` if `atpsh=` names a hash function,
/// and else the signing domain in lower case itself.
pub open spec fn atps_query_name(sig: SignatureView, digest: Seq<u8>) -> Option<Seq<u8>> {
    match sig.atps {
        None => None,
        Some(domain) => Some(
            (match sig.atpsh {
                Some(_) => base32_encode(digest),
                None => lower_seq(sig.d),
            }) + ascii("._atps.") + domain,
        ),
    }
}

/// Whether the ATPS record `record` authorizes the signing domain `d`: it
/// is a well-formed record, and it names no domain or names `d`.
pub open spec fn authorizes(record: Seq<u8>, d: Seq<u8>) -> bool {
    match atps_of(record) {
        Ok(atps) => match atps.d {
            Some(named) => same_domain(named, d),
            None => true,
        },
        Err(_) => false,
    }
}

/// Whether a lookup gave a record that authorizes the signing domain `d`.
pub open spec fn is_authorized(lookup: LookupView, d: Seq<u8>) -> bool {
    match lookup {
        Ok(records) => exists|k: int| 0 <= k < records.len() && authorizes(#[trigger] records[k], d),
        Err(_) => false,
    }
}

/// `s` in lower case.
pub fn lower_bytes(s: &[u8]) -> (out: Vec<u8>)
    ensures
        out@ == lower_seq(s@),
{
    let mut out: Vec<u8> = Vec::new();
    let mut k: usize = 0;
    while k < s.len()
        invariant
            k <= s@.len(),
            out@ == lower_seq(s@.take(k as int)),
        decreases s@.len() - k,
    {
        out.push(to_lower(s[k]));
        proof {
            assert(out@ =~= lower_seq(s@.take(k + 1)));
        }
        k += 1;
    }
    proof {
        assert(s@.take(s@.len() as int) =~= s@);
    }
    out
}

/// Whether the ATPS record `record` authorizes the signing domain `d`.
pub fn record_authorizes(record: &[u8], d: &[u8]) -> (r: bool)
    ensures
        r == authorizes(record@, d@),
{
    match Atps::parse(record) {
        Ok(atps) => match &atps.d {
            Some(named) => domains_match(named.as_str().as_bytes(), d),
            None => true,
        },
        Err(_) => false,
    }
}

/// Whether a lookup gave a record that authorizes the signing domain `d`.
pub fn lookup_authorizes(lookup: &Lookup, d: &[u8]) -> (r: bool)
    ensures
        r == is_authorized(lookup_view(*lookup), d@),
{
    match lookup {
        Err(_) => false,
        Ok(records) => {
            let ghost all = Seq::new(records@.len(), |k: int| records@[k]@);
            let mut k: usize = 0;
            while k < records.len()
                invariant
                    k <= records@.len(),
                    *lookup == Ok::<Vec<Vec<u8>>, DnsFailure>(*records),
                    all == Seq::new(records@.len(), |k: int| records@[k]@),
                    forall|j: int| 0 <= j < k ==> !authorizes(#[trigger] all[j], d@),
                decreases records@.len() - k,
            {
                if record_authorizes(records[k].as_slice(), d) {
                    proof {
                        let given = lookup_view(*lookup)->Ok_0;
                        assert(given[k as int] == records@[k as int]@);
                        assert(authorizes(given[k as int], d@));
                    }
                    return true;
                }
                k += 1;
            }
            false
        },
    }
}

impl Signature {
    /// The name at which this signature's third-party authorization is
    /// published, from the digest of [`atps_hash_input`].
    pub fn atps_query_name(&self, digest: &[u8]) -> (r: Option<Vec<u8>>)
        ensures
            match r {
                Some(name) => atps_query_name(self@, digest@) == Some(name@),
                None => atps_query_name(self@, digest@) is None,
            },
    {
        match &self.atps {
            None => None,
            Some(domain) => {
                let mut out = match self.atpsh {
                    Some(_) => crate::common::base32::encode(digest),
                    None => lower_bytes(self.d.as_str().as_bytes()),
                };
                out.extend_from_slice("._atps.".as_bytes());
                out.extend_from_slice(domain.as_str().as_bytes());
                Some(out)
            },
        }
    }

    /// The name at which this signature's third-party authorization is
    /// published; `None` if the signature claims no authorization. Where
    /// `atpsh=` names a hash function, the verifier is asked for the digest
    /// of [`atps_hash_input`] under it.
    pub fn atps_query<V: Verifier>(&self, verifier: &V) -> (r: Option<Vec<u8>>)
        ensures
            r is Some <==> self@.atps is Some,
            r is Some ==> exists|digest: Seq<u8>| #[trigger]
                atps_query_name(self@, digest) == Some(r->0@) && (self@.atpsh is Some
                    ==> verifier_hashes(
                    verifier,
                    self@.atpsh->0,
                    atps_hash_input(self@),
                    digest,
                )),
    {
        let digest = match self.atpsh {
            Some(h) => {
                let input = lower_bytes(self.d.as_str().as_bytes());
                ask_digest(verifier, h, input.as_slice())
            },
            None => Vec::new(),
        };
        let name = self.atps_query_name(digest.as_slice());
        proof {
            if name is Some {
                assert(atps_query_name(self@, digest@) == Some(name->0@));
            }
        }
        name
    }
}

/// The outcome `out` for the signature `sig` after the lookup of its
/// third-party authorization: marked as authorized if the signature passed,
/// claims an authorization and the lookup gave a record that grants it; in
/// every other respect unchanged.
pub fn apply_atps<'x>(out: DkimOutput<'x>, sig: &Signature, lookup: &Lookup) -> (r: DkimOutput<'x>)
    ensures
        r.result == out.result,
        r.signature == out.signature,
        r.report == out.report,
        r.is_atps == (out.is_atps || (out.result == DkimResult::Pass && sig@.atps is Some
            && is_authorized(lookup_view(*lookup), sig@.d))),
{
    if out.result == DkimResult::Pass && sig.atps.is_some() && lookup_authorizes(
        lookup,
        sig.d.as_str().as_bytes(),
    ) {
        out.with_atps()
    } else {
        out
    }
}

/// The name at which a domain publishes where it wants failure reports.
pub open spec fn report_query_name(sig: SignatureView) -> Seq<u8> {
    ascii("_report._domainkey.") + sig.d
}

/// The reporting address of the first of `records`, from `p` on, that is a
/// failure-report record.
pub open spec fn first_report_address(records: Seq<Seq<u8>>, p: int) -> Option<Seq<u8>>
    decreases records.len() - p,
{
    if p < 0 || p >= records.len() {
        None
    } else {
        match report_record_of(records[p]) {
            Ok(report) => Some(report.ra),
            Err(_) => first_report_address(records, p + 1),
        }
    }
}

/// The address that a lookup of a domain's report record gives for a
/// signature with the result `result`: that of the first record that can be
/// read, if the signature asks for reports and did not pass.
pub open spec fn looked_up_report_address(
    sig: SignatureView,
    result: DkimResult,
    lookup: LookupView,
) -> Option<Seq<u8>> {
    match lookup {
        Ok(records) => if sig.r && result != DkimResult::Pass {
            first_report_address(records, 0)
        } else {
            None
        },
        Err(_) => None,
    }
}

impl Signature {
    /// The name at which this signature's domain publishes where it wants
    /// failure reports.
    pub fn report_query_name(&self) -> (out: Vec<u8>)
        ensures
            out@ == report_query_name(self@),
    {
        let mut out: Vec<u8> = Vec::new();
        out.extend_from_slice("_report._domainkey.".as_bytes());
        out.extend_from_slice(self.d.as_str().as_bytes());
        proof {
            assert(out@ =~= report_query_name(self@));
        }
        out
    }
}

/// The outcome `out` for the signature `sig` after the lookup of its
/// domain's report record: where `out` names no reporting address yet, it
/// names the one that the lookup gives; in every other respect unchanged.
pub fn apply_report<'x>(out: DkimOutput<'x>, sig: &Signature, lookup: &Lookup) -> (r: DkimOutput<
    'x,
>)
    ensures
        r.result == out.result,
        r.signature == out.signature,
        r.is_atps == out.is_atps,
        out.report is Some ==> r.report == out.report,
        out.report is None ==> text_bytes(r.report) == looked_up_report_address(
            sig@,
            out.result,
            lookup_view(*lookup),
        ),
{
    if out.report.is_some() || !sig.r || out.result == DkimResult::Pass {
        return out;
    }
    match lookup {
        Err(_) => out,
        Ok(records) => {
            let ghost all = Seq::new(records@.len(), |k: int| records@[k]@);
            proof {
                assert(lookup_view(*lookup)->Ok_0 =~= all);
            }
            let mut k: usize = 0;
            while k < records.len()
                invariant
                    k <= records@.len(),
                    *lookup == Ok::<Vec<Vec<u8>>, DnsFailure>(*records),
                    out.report is None,
                    sig.r,
                    out.result != DkimResult::Pass,
                    all == Seq::new(records@.len(), |k: int| records@[k]@),
                    lookup_view(*lookup)->Ok_0 == all,
                    first_report_address(all, k as int) == first_report_address(all, 0),
                decreases records@.len() - k,
            {
                match DomainKeyReport::parse(records[k].as_slice()) {
                    Ok(report) => {
                        let mut named = out;
                        named.report = Some(report.ra);
                        return named;
                    },
                    Err(_) => {},
                }
                k += 1;
            }
            out
        },
    }
}

} // verus!
