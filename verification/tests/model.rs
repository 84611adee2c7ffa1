use mail_auth::common::base32;
use mail_auth::common::crypto::{
    Algorithm, HashAlgorithm, KeyType, SigningKey, Verifier, R_HASH_SHA1, R_HASH_SHA256,
};
use mail_auth::common::verify::VerifySignature;
use mail_auth::dkim::headers::names_match;
use mail_auth::dkim::parse::{domain_of_identity, is_identity_within, is_within_domain};
use mail_auth::dkim::verify::{
    apply_atps, apply_report, lookup_authorizes, lower_bytes, Lookup,
};
use mail_auth::dkim::{
    Canonicalization, DkimSigner, DomainKeyReport, Flag, Service, Signature, R_FLAG_MATCH_DOMAIN, R_FLAG_TESTING,
    R_SVC_ALL, R_SVC_EMAIL,
};
use mail_auth::{ArcOutput, DkimOutput, DkimResult, DnsFailure, Error};

#[derive(Clone, Debug, PartialEq, Eq)]
struct NullKey(Algorithm);

impl SigningKey for NullKey {
    fn algorithm(&self) -> Algorithm {
        self.0
    }

    fn hash(&self, _data: &[u8]) -> Vec<u8> {
        Vec::new()
    }

    fn sign(&self, _data: &[u8]) -> Result<Vec<u8>, Error> {
        Err(Error::BadSignature)
    }
}

struct LengthVerifier;

impl Verifier for LengthVerifier {
    fn hash(&self, _algorithm: HashAlgorithm, data: &[u8]) -> Vec<u8> {
        vec![data.len() as u8, 0xff, 0x00, 0x10, 0x20]
    }

    fn verify(&self, _a: Algorithm, _k: &[u8], _d: &[u8], _s: &[u8]) -> bool {
        false
    }
}

#[test]
fn defaults() {
    assert_eq!(Algorithm::default(), Algorithm::RsaSha256);
    assert_eq!(Canonicalization::default(), Canonicalization::Relaxed);
    let sig = Signature::default();
    assert_eq!(sig.v, 0);
    assert_eq!(sig.a, Algorithm::RsaSha256);
    assert_eq!(sig.identity(), "");
    assert_eq!(sig.body_hash(), b"");
    assert_eq!(sig.signature(), b"");
    assert_eq!(sig.selector(), "");
    assert_eq!(sig.domain(), "");
    assert_eq!(sig.algorithm(), Algorithm::RsaSha256);
    assert_eq!((sig.ch, sig.cb), (Canonicalization::Relaxed, Canonicalization::Relaxed));
}

#[test]
fn algorithm_fixes_the_hash_function() {
    assert_eq!(HashAlgorithm::from(Algorithm::RsaSha1), HashAlgorithm::Sha1);
    assert_eq!(HashAlgorithm::from(Algorithm::RsaSha256), HashAlgorithm::Sha256);
    assert_eq!(HashAlgorithm::from(Algorithm::Ed25519Sha256), HashAlgorithm::Sha256);
    assert_eq!(Algorithm::RsaSha1.family(), KeyType::Rsa);
    assert_eq!(Algorithm::RsaSha256.family(), KeyType::Rsa);
    assert_eq!(Algorithm::Ed25519Sha256.family(), KeyType::Ed25519);
}

#[test]
fn flags_are_bits() {
    assert_eq!(u64::from(Flag::Testing), R_FLAG_TESTING);
    assert_eq!(u64::from(Flag::MatchDomain), R_FLAG_MATCH_DOMAIN);
    assert_eq!(u64::from(Service::All), R_SVC_ALL);
    assert_eq!(u64::from(Service::Email), R_SVC_EMAIL);
    assert_eq!(u64::from(HashAlgorithm::Sha1), R_HASH_SHA1);
    assert_eq!(u64::from(HashAlgorithm::Sha256), R_HASH_SHA256);
    assert_eq!((R_SVC_ALL, R_SVC_EMAIL, R_FLAG_TESTING, R_FLAG_MATCH_DOMAIN), (4, 8, 16, 32));
    let all = [R_HASH_SHA1, R_HASH_SHA256, R_SVC_ALL, R_SVC_EMAIL, R_FLAG_TESTING, R_FLAG_MATCH_DOMAIN];
    for (i, a) in all.iter().enumerate() {
        for b in &all[i + 1..] {
            assert_eq!(a & b, 0);
        }
    }
}

#[test]
fn outputs_start_bare() {
    let outputs = [
        (DkimOutput::pass(), DkimResult::Pass),
        (DkimOutput::perm_err(Error::KeyRevoked), DkimResult::PermError(Error::KeyRevoked)),
        (
            DkimOutput::temp_err(Error::DnsError(DnsFailure::ServFail)),
            DkimResult::TempError(Error::DnsError(DnsFailure::ServFail)),
        ),
        (DkimOutput::fail(Error::BadSignature), DkimResult::Fail(Error::BadSignature)),
        (DkimOutput::neutral(Error::NoSignature), DkimResult::Neutral(Error::NoSignature)),
    ];
    for (out, result) in outputs {
        assert_eq!(*out.result(), result);
        assert_eq!(out.signature(), None);
        assert_eq!(out.failure_report_addr(), None);
        assert!(!out.is_atps);
    }
}

#[test]
fn dns_errors_are_temporary_and_all_others_permanent() {
    let temporary = Error::DnsError(DnsFailure::Timeout);
    assert_eq!(*DkimOutput::dns_error(temporary).result(), DkimResult::TempError(temporary));
    assert_eq!(
        *DkimOutput::dns_error(Error::NoKeyFound).result(),
        DkimResult::PermError(Error::NoKeyFound)
    );
    assert_eq!(DkimResult::from(temporary), DkimResult::TempError(temporary));
    assert_eq!(DkimResult::from(Error::KeyRevoked), DkimResult::PermError(Error::KeyRevoked));
}

#[test]
fn each_error_has_its_class_of_result() {
    for err in [
        Error::SignatureExpired,
        Error::BodyHashMismatch,
        Error::BadSignature,
        Error::ArcBrokenChain,
    ] {
        assert_eq!(DkimResult::from(err), DkimResult::Fail(err));
    }
    for failure in [DnsFailure::Timeout, DnsFailure::ServFail, DnsFailure::NxDomain] {
        let err = Error::DnsError(failure);
        assert_eq!(DkimResult::from(err), DkimResult::TempError(err));
    }
    for err in [Error::NoSignature, Error::NoArcSet] {
        assert_eq!(DkimResult::from(err), DkimResult::Neutral(err));
    }
    for err in [
        Error::SignatureParseError,
        Error::UnsupportedAlgorithm,
        Error::UnsupportedCanonicalization,
        Error::SignatureLength,
        Error::KeyRecordParseError,
        Error::KeyRevoked,
        Error::AlgorithmMismatch,
        Error::KeyAlgorithmMismatch,
        Error::ServiceNotAllowed,
        Error::NoKeyFound,
        Error::AmbiguousKey,
        Error::StrictSubdomainViolation,
        Error::IdentityMismatch,
        Error::AtpsParseError,
        Error::ArcInstanceSequenceInvalid,
    ] {
        assert_eq!(DkimResult::from(err), DkimResult::PermError(err));
    }
}

#[test]
fn output_names_its_signature() {
    let sig = Signature::default();
    let out = DkimOutput::fail(Error::BadSignature).with_signature(&sig).with_atps();
    assert_eq!(out.signature(), Some(&sig));
    assert!(out.is_atps);
    assert_eq!(*out.result(), DkimResult::Fail(Error::BadSignature));
    let mut with_report = DkimOutput::pass();
    with_report.report = Some("abuse@example.com".to_string());
    assert_eq!(with_report.failure_report_addr(), Some("abuse@example.com"));
}

#[test]
fn arc_output_getters() {
    let out = ArcOutput { result: DkimResult::Neutral(Error::NoArcSet), set: Vec::new() };
    assert_eq!(*out.result(), DkimResult::Neutral(Error::NoArcSet));
    assert!(out.sets().is_empty());
}

#[test]
fn builder_sets_one_thing_at_a_time() {
    let signer = DkimSigner::from_key(NullKey(Algorithm::Ed25519Sha256));
    assert_eq!(signer.template.v, 1);
    assert_eq!(signer.template.a, Algorithm::Ed25519Sha256);
    assert_eq!(signer.template.ch, Canonicalization::Relaxed);
    assert_eq!(signer.template.cb, Canonicalization::Relaxed);
    let signer = signer.domain("example.com".to_string());
    assert_eq!(signer.template.d, "example.com");
    let signer = signer.selector("sel".to_string());
    assert_eq!(signer.template.s, "sel");
    let signer = signer.headers(vec!["From".to_string()]);
    assert_eq!(signer.template.h, vec!["From"]);
    let signer = signer
        .atps("author.example".to_string())
        .atpsh(HashAlgorithm::Sha256)
        .agent_user_identifier("a@example.com".to_string())
        .unwrap()
        .expiration(60)
        .body_length(10)
        .reporting(true)
        .header_canonicalization(Canonicalization::Simple)
        .body_canonicalization(Canonicalization::Simple);
    let t = &signer.template;
    assert_eq!(t.atps.as_deref(), Some("author.example"));
    assert_eq!(t.atpsh, Some(HashAlgorithm::Sha256));
    assert_eq!(t.i, "a@example.com");
    assert_eq!((t.x, t.l, t.r), (60, 10, true));
    assert_eq!((t.ch, t.cb), (Canonicalization::Simple, Canonicalization::Simple));
    assert_eq!((t.d.as_str(), t.s.as_str()), ("example.com", "sel"));
    assert_eq!(signer.key, NullKey(Algorithm::Ed25519Sha256));
    assert_eq!(signer.clone().template, signer.template);
}

#[test]
fn error_of_the_key_is_the_error_of_signing() {
    let signer = DkimSigner::from_key(NullKey(Algorithm::RsaSha1))
        .domain("d".to_string())
        .selector("s".to_string())
        .headers(vec![]);
    assert_eq!(signer.sign(b"From: a\r\n\r\n", 1), Err(Error::BadSignature));
}

#[test]
fn identity_domains() {
    assert_eq!(domain_of_identity(b"joe@example.com"), b"example.com");
    assert_eq!(domain_of_identity(b"\"a@b\"@example.com"), b"example.com");
    assert_eq!(domain_of_identity(b"example.com"), b"example.com");
    assert_eq!(domain_of_identity(b"joe@"), b"");
    assert!(is_within_domain(b"Example.COM", b"example.com"));
    assert!(is_within_domain(b"a.b.example.com", b"Example.com"));
    assert!(!is_within_domain(b"badexample.com", b"example.com"));
    assert!(!is_within_domain(b"com", b"example.com"));
    assert!(!is_within_domain(b".example.com", b"xexample.com"));
    assert!(is_identity_within(b"", b"example.com"));
    assert!(is_identity_within(b"@example.com", b"example.com"));
    assert!(!is_identity_within(b"joe@", b"example.com"));
}

#[test]
fn header_names_match_without_case_or_white_space() {
    assert!(names_match(b"DKIM-Signature", b"dkim-signature"));
    assert!(names_match(b"Subject ", b"SUBJECT"));
    assert!(!names_match(b"Subject", b"Subjects"));
}

#[test]
fn base32_known_values() {
    assert_eq!(base32::encode(b""), b"".to_vec());
    assert_eq!(base32::encode(b"f"), b"my".to_vec());
    assert_eq!(base32::encode(b"fo"), b"mzxq".to_vec());
    assert_eq!(base32::encode(b"foo"), b"mzxw6".to_vec());
    assert_eq!(base32::encode(b"foob"), b"mzxw6yq".to_vec());
    assert_eq!(base32::encode(b"fooba"), b"mzxw6ytb".to_vec());
    assert_eq!(base32::encode(b"foobar"), b"mzxw6ytboi".to_vec());
    assert_eq!(base32::encode(&[0xff; 5]), b"77777777".to_vec());
}

fn third_party(atpsh: Option<&str>) -> Signature {
    let mut text = "v=1; a=rsa-sha256; d=Signer.Example; s=s; h=from; bh=; b=; atps=author.example"
        .to_string();
    if let Some(h) = atpsh {
        text.push_str("; atpsh=");
        text.push_str(h);
    }
    Signature::parse(text.as_bytes()).unwrap()
}

#[test]
fn atps_query_names() {
    assert_eq!(lower_bytes(b"Signer.Example"), b"signer.example".to_vec());
    assert_eq!(
        third_party(None).atps_query_name(b"ignored"),
        Some(b"signer.example._atps.author.example".to_vec())
    );
    assert_eq!(
        third_party(Some("none")).atps_query(&LengthVerifier),
        Some(b"signer.example._atps.author.example".to_vec())
    );
    assert_eq!(
        third_party(Some("sha1")).atps_query_name(b"foobar"),
        Some(b"mzxw6ytboi._atps.author.example".to_vec())
    );
    let hashed = third_party(Some("sha256")).atps_query(&LengthVerifier).unwrap();
    let mut expected = base32::encode(&[14, 0xff, 0x00, 0x10, 0x20]);
    expected.extend_from_slice(b"._atps.author.example");
    assert_eq!(hashed, expected);
    let plain = Signature::parse(b"v=1; a=rsa-sha256; d=d; s=s; h=from; bh=; b=").unwrap();
    assert_eq!(plain.atps_query_name(b"x"), None);
    assert_eq!(plain.atps_query(&LengthVerifier), None);
}

#[test]
fn atps_record_marks_a_passing_signature() {
    let sig = third_party(None);
    let grants: Lookup = Ok(vec![b"junk".to_vec(), b"v=ATPS1; d=signer.example".to_vec()]);
    let open: Lookup = Ok(vec![b"v=ATPS1".to_vec()]);
    let other: Lookup = Ok(vec![b"v=ATPS1; d=other.example".to_vec()]);
    let failed: Lookup = Err(DnsFailure::NxDomain);
    assert!(lookup_authorizes(&grants, b"Signer.Example"));
    assert!(lookup_authorizes(&open, b"signer.example"));
    assert!(!lookup_authorizes(&other, b"signer.example"));
    assert!(!lookup_authorizes(&failed, b"signer.example"));
    assert!(!lookup_authorizes(&Ok(vec![]), b"signer.example"));
    let pass = || DkimOutput::pass().with_signature(&sig);
    assert!(apply_atps(pass(), &sig, &grants).is_atps);
    assert!(apply_atps(pass(), &sig, &open).is_atps);
    assert!(!apply_atps(pass(), &sig, &other).is_atps);
    assert!(!apply_atps(pass(), &sig, &failed).is_atps);
    let fail = DkimOutput::fail(Error::BadSignature).with_signature(&sig);
    let after = apply_atps(fail, &sig, &grants);
    assert!(!after.is_atps);
    assert_eq!(*after.result(), DkimResult::Fail(Error::BadSignature));
    assert_eq!(after.signature(), Some(&sig));
    let plain = Signature::parse(b"v=1; a=rsa-sha256; d=signer.example; s=s; h=from; bh=; b=").unwrap();
    assert!(!apply_atps(DkimOutput::pass(), &plain, &grants).is_atps);
}

#[test]
fn report_record_names_the_reporting_address() {
    let report = DomainKeyReport::parse(b"ra=dkim-errors; rp=10; rr=v:x").unwrap();
    assert_eq!(report.ra, "dkim-errors");
    assert_eq!(report.rp, 10);
    assert_eq!(DomainKeyReport::parse(b"rp=10"), Err(Error::KeyRecordParseError));
    assert_eq!(DomainKeyReport::parse(b"ra=a; rp=abc"), Err(Error::KeyRecordParseError));

    let asking = Signature::parse(b"v=1; a=rsa-sha256; d=example.com; s=s; h=from; r=y; bh=; b=").unwrap();
    let silent = Signature::parse(b"v=1; a=rsa-sha256; d=example.com; s=s; h=from; bh=; b=").unwrap();
    assert_eq!(asking.report_query_name(), b"_report._domainkey.example.com".to_vec());
    let lookup: Lookup = Ok(vec![b"junk".to_vec(), b"ra=first".to_vec(), b"ra=second".to_vec()]);
    let failed = || DkimOutput::fail(Error::BadSignature);
    assert_eq!(apply_report(failed(), &asking, &lookup).failure_report_addr(), Some("first"));
    assert_eq!(apply_report(failed(), &silent, &lookup).failure_report_addr(), None);
    assert_eq!(apply_report(DkimOutput::pass(), &asking, &lookup).failure_report_addr(), None);
    assert_eq!(
        apply_report(failed(), &asking, &Err(DnsFailure::Timeout)).failure_report_addr(),
        None
    );
    assert_eq!(apply_report(failed(), &asking, &Ok(vec![])).failure_report_addr(), None);
    let mut named = failed();
    named.report = Some("kept".to_string());
    assert_eq!(apply_report(named, &asking, &lookup).failure_report_addr(), Some("kept"));
}
