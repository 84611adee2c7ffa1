use mail_auth::common::base64::encode;
use mail_auth::common::crypto::{Algorithm, HashAlgorithm, SigningKey, Verifier};
use mail_auth::dkim::headers::Message;
use mail_auth::dkim::sign::body_to_hash;
use mail_auth::dkim::verify::{
    body_to_verify, find_signatures, select_record, strip_signature_bytes, verify, Lookup,
};
use mail_auth::dkim::{Canonicalization, DkimSigner, Done, Signature};
use mail_auth::{DkimOutput, DkimResult, DnsFailure, Error};

fn checksum(tag: u8, data: &[u8]) -> Vec<u8> {
    let mut a: u32 = 1;
    let mut b: u32 = tag as u32;
    for &x in data {
        a = (a + x as u32) % 65521;
        b = (b + a) % 65521;
    }
    vec![(b >> 8) as u8, b as u8, (a >> 8) as u8, a as u8]
}

fn tag_of(h: HashAlgorithm) -> u8 {
    match h {
        HashAlgorithm::Sha1 => 1,
        HashAlgorithm::Sha256 => 2,
    }
}

#[derive(Clone)]
struct ToyKey {
    algorithm: Algorithm,
    secret: u8,
}

impl SigningKey for ToyKey {
    fn algorithm(&self) -> Algorithm {
        self.algorithm
    }

    fn hash(&self, data: &[u8]) -> Vec<u8> {
        checksum(tag_of(self.algorithm.into()), data)
    }

    fn sign(&self, data: &[u8]) -> Result<Vec<u8>, Error> {
        let mut out = checksum(self.secret, data);
        out.push(self.secret);
        Ok(out)
    }
}

struct ToyVerifier;

impl Verifier for ToyVerifier {
    fn hash(&self, algorithm: HashAlgorithm, data: &[u8]) -> Vec<u8> {
        checksum(tag_of(algorithm), data)
    }

    fn verify(&self, _algorithm: Algorithm, public_key: &[u8], data: &[u8], signature: &[u8]) -> bool {
        if public_key.len() != 1 {
            return false;
        }
        let mut expected = checksum(public_key[0], data);
        expected.push(public_key[0]);
        expected == signature
    }
}

const MESSAGE: &[u8] = b"From: Joe <joe@example.com>\r\n\
To: Ann <ann@example.org>\r\n\
Subject:  A  folded\r\n\t subject \r\n\
Date: Fri, 11 Jul 2003 21:00:37 -0700\r\n\
\r\n\
Hi.\r\n\
\r\n\
We lost  the game. \r\n\
\r\n\r\n";

fn signer(algorithm: Algorithm) -> DkimSigner<ToyKey, Done> {
    DkimSigner::from_key(ToyKey { algorithm, secret: 7 })
        .domain("example.com".to_string())
        .selector("sel".to_string())
        .headers(vec!["From".to_string(), "To".to_string(), "Subject".to_string()])
}

fn record(algorithm: Algorithm, extra: &str) -> Vec<u8> {
    let k = match algorithm {
        Algorithm::Ed25519Sha256 => "ed25519",
        _ => "rsa",
    };
    let mut out = format!("v=DKIM1; k={}; {}p=", k, extra).into_bytes();
    out.extend_from_slice(&encode(&[7]));
    out
}

fn signed(signature: &Signature, message: &[u8]) -> Vec<u8> {
    let mut out = signature.to_header();
    out.extend_from_slice(message);
    out
}

fn results(raw: &[u8], lookups: Vec<Lookup>, now: u64) -> Vec<DkimResult> {
    let message = Message::parse(raw);
    let found = find_signatures(&message.headers);
    let out: Vec<DkimOutput> =
        verify(&ToyVerifier, &message.headers, message.body, &found, &lookups, now);
    out.iter().map(|o| *o.result()).collect()
}

#[test]
fn round_trip_passes_for_every_algorithm_and_mode() {
    let modes = [Canonicalization::Simple, Canonicalization::Relaxed];
    for algorithm in [Algorithm::RsaSha1, Algorithm::RsaSha256, Algorithm::Ed25519Sha256] {
        for ch in modes {
            for cb in modes {
                let signer = signer(algorithm).header_canonicalization(ch).body_canonicalization(cb);
                let signature = signer.sign(MESSAGE, 1000).unwrap();
                assert_eq!(signature.a, algorithm);
                assert_eq!(signature.t, 1000);
                let raw = signed(&signature, MESSAGE);
                let lookups = vec![Ok(vec![record(algorithm, "")])];
                assert_eq!(results(&raw, lookups, 1001), vec![DkimResult::Pass]);
            }
        }
    }
}

#[test]
fn signature_header_text_is_exact() {
    let signature = signer(Algorithm::RsaSha256)
        .agent_user_identifier("joe@mail.example.com".to_string())
        .unwrap()
        .expiration(50)
        .reporting(true)
        .sign(MESSAGE, 1000)
        .unwrap();
    let bh = String::from_utf8(encode(signature.body_hash())).unwrap();
    let b = String::from_utf8(encode(&signature.b)).unwrap();
    let expected = format!(
        "DKIM-Signature: v=1; a=rsa-sha256; c=relaxed/relaxed; d=example.com; s=sel; \
         h=From:To:Subject; i=joe@mail.example.com; t=1000; x=1050; r=y; bh={}; b={}\r\n",
        bh, b
    );
    assert_eq!(String::from_utf8(signature.to_header()).unwrap(), expected);
    let parsed = Signature::parse(&signature.to_header_value()).unwrap();
    assert_eq!(parsed, signature);
}

#[test]
fn signed_body_hash_is_the_hash_of_the_canonical_body() {
    let signature = signer(Algorithm::RsaSha256).sign(MESSAGE, 1).unwrap();
    let canonical = b"Hi.\r\n\r\nWe lost the game.\r\n";
    assert_eq!(signature.body_hash(), checksum(2, canonical).as_slice());
    assert_eq!(signature.l, 0);
}

#[test]
fn changed_body_fails_with_body_hash_mismatch() {
    let signature = signer(Algorithm::RsaSha256).sign(MESSAGE, 1000).unwrap();
    let raw = signed(&signature, MESSAGE);
    let body_at = raw.len() - Message::parse(&raw).body.len();
    for at in [body_at, body_at + 1, body_at + 9, body_at + 20] {
        let mut changed = raw.clone();
        changed[at] ^= 0x01;
        let lookups = vec![Ok(vec![record(Algorithm::RsaSha256, "")])];
        assert_eq!(
            results(&changed, lookups, 1001),
            vec![DkimResult::Fail(Error::BodyHashMismatch)]
        );
    }
}

#[test]
fn changed_signed_header_fails_with_bad_signature() {
    let signature = signer(Algorithm::RsaSha256).sign(MESSAGE, 1000).unwrap();
    let mut raw = signed(&signature, MESSAGE);
    let at = raw.windows(3).position(|w| w == b"Joe").unwrap();
    raw[at] = b'M';
    let lookups = vec![Ok(vec![record(Algorithm::RsaSha256, "")])];
    assert_eq!(results(&raw, lookups, 1001), vec![DkimResult::Fail(Error::BadSignature)]);
}

#[test]
fn changed_unsigned_header_still_passes() {
    let signature = signer(Algorithm::RsaSha256).sign(MESSAGE, 1000).unwrap();
    let mut raw = signed(&signature, MESSAGE);
    let at = raw.windows(3).position(|w| w == b"Fri").unwrap();
    raw[at] = b'S';
    let lookups = vec![Ok(vec![record(Algorithm::RsaSha256, "")])];
    assert_eq!(results(&raw, lookups, 1001), vec![DkimResult::Pass]);
}

#[test]
fn wrong_key_fails_with_bad_signature() {
    let signature = signer(Algorithm::RsaSha256).sign(MESSAGE, 1000).unwrap();
    let raw = signed(&signature, MESSAGE);
    let mut other = b"p=".to_vec();
    other.extend_from_slice(&encode(&[8]));
    assert_eq!(results(&raw, vec![Ok(vec![other])], 1001), vec![DkimResult::Fail(Error::BadSignature)]);
}

#[test]
fn expired_signature_fails_and_is_no_permanent_error() {
    let signature = signer(Algorithm::RsaSha256).expiration(10).sign(MESSAGE, 1000).unwrap();
    assert_eq!(signature.x, 1010);
    let raw = signed(&signature, MESSAGE);
    let lookup = || vec![Ok(vec![record(Algorithm::RsaSha256, "")])];
    assert_eq!(results(&raw, lookup(), 1010), vec![DkimResult::Pass]);
    assert_eq!(results(&raw, lookup(), 1011), vec![DkimResult::Fail(Error::SignatureExpired)]);
    assert_eq!(
        results(&raw, vec![Err(DnsFailure::NxDomain)], 1011),
        vec![DkimResult::Fail(Error::SignatureExpired)]
    );
    let before_creation = b"DKIM-Signature: v=1; a=rsa-sha256; d=d; s=s; h=from; t=100; x=50; bh=; b=\r\n\r\n";
    assert_eq!(
        results(before_creation, lookup(), 10),
        vec![DkimResult::Fail(Error::SignatureExpired)]
    );
}

#[test]
fn expiration_that_does_not_fit_is_the_last_second() {
    let signature = signer(Algorithm::RsaSha256).expiration(u64::MAX).sign(MESSAGE, 1000).unwrap();
    assert_eq!(signature.x, u64::MAX);
}

#[test]
fn each_signature_has_its_own_outcome() {
    let good = signer(Algorithm::RsaSha256).sign(MESSAGE, 1000).unwrap();
    let mut raw = b"DKIM-Signature: v=1; a=rsa-sha256; d=example.com; s=sel; h=From; b=AAAA\r\n".to_vec();
    raw.extend_from_slice(&good.to_header());
    raw.extend_from_slice(b"Dkim-signature: v=1; a=rsa-md5; d=d; s=s; h=From; bh=; b=\r\n");
    raw.extend_from_slice(MESSAGE);
    let answer = || -> Lookup { Ok(vec![record(Algorithm::RsaSha256, "")]) };
    assert_eq!(
        results(&raw, vec![answer(), answer(), answer()], 1001),
        vec![
            DkimResult::PermError(Error::SignatureParseError),
            DkimResult::Pass,
            DkimResult::PermError(Error::UnsupportedAlgorithm),
        ]
    );
    let message = Message::parse(&raw);
    let found = find_signatures(&message.headers);
    let lookups = vec![answer(), answer(), answer()];
    let out = verify(&ToyVerifier, &message.headers, message.body, &found, &lookups, 1001);
    assert!(out[0].signature().is_none());
    assert_eq!(out[1].signature(), Some(&good));
    assert_eq!(out[1].failure_report_addr(), None);
}

#[test]
fn no_signature_is_neutral() {
    assert_eq!(results(MESSAGE, vec![], 1), vec![DkimResult::Neutral(Error::NoSignature)]);
}

#[test]
fn lookup_failures() {
    let signature = signer(Algorithm::RsaSha256).sign(MESSAGE, 1000).unwrap();
    let raw = signed(&signature, MESSAGE);
    let check = |lookup: Lookup| results(&raw, vec![lookup], 1001)[0];
    assert_eq!(
        check(Err(DnsFailure::Timeout)),
        DkimResult::TempError(Error::DnsError(DnsFailure::Timeout))
    );
    assert_eq!(
        check(Err(DnsFailure::ServFail)),
        DkimResult::TempError(Error::DnsError(DnsFailure::ServFail))
    );
    assert_eq!(check(Err(DnsFailure::NxDomain)), DkimResult::PermError(Error::NoKeyFound));
    assert_eq!(check(Ok(vec![])), DkimResult::PermError(Error::NoKeyFound));
    let one = record(Algorithm::RsaSha256, "");
    let other = record(Algorithm::RsaSha256, "t=y; ");
    assert_eq!(check(Ok(vec![one.clone(), other])), DkimResult::PermError(Error::AmbiguousKey));
    assert_eq!(check(Ok(vec![one.clone(), one])), DkimResult::Pass);
    assert_eq!(
        results(&raw, vec![], 1001),
        vec![DkimResult::TempError(Error::DnsError(DnsFailure::Timeout))]
    );
    assert_eq!(
        select_record(&Err(DnsFailure::NxDomain)),
        Err(DkimResult::PermError(Error::NoKeyFound))
    );
}

#[test]
fn key_record_failures() {
    let signature = signer(Algorithm::RsaSha256).sign(MESSAGE, 1000).unwrap();
    let raw = signed(&signature, MESSAGE);
    let check = |txt: Vec<u8>| results(&raw, vec![Ok(vec![txt])], 1001)[0];
    assert_eq!(check(b"v=DKIM1; p=".to_vec()), DkimResult::PermError(Error::KeyRevoked));
    assert_eq!(check(b"v=DKIM1".to_vec()), DkimResult::PermError(Error::KeyRevoked));
    assert_eq!(check(b"nonsense".to_vec()), DkimResult::PermError(Error::KeyRecordParseError));
    assert_eq!(
        check(record(Algorithm::Ed25519Sha256, "")),
        DkimResult::PermError(Error::AlgorithmMismatch)
    );
    assert_eq!(
        check(record(Algorithm::RsaSha256, "s=web; ")),
        DkimResult::PermError(Error::ServiceNotAllowed)
    );
    assert_eq!(check(record(Algorithm::RsaSha256, "s=web:email; ")), DkimResult::Pass);
    assert_eq!(check(record(Algorithm::RsaSha256, "s=*; ")), DkimResult::Pass);
}

#[test]
fn strict_key_wants_the_identity_in_the_signing_domain_itself() {
    let strict = record(Algorithm::RsaSha256, "t=s; ");
    let check = |signer: DkimSigner<ToyKey, Done>| {
        let raw = signed(&signer.sign(MESSAGE, 1000).unwrap(), MESSAGE);
        results(&raw, vec![Ok(vec![strict.clone()])], 1001)[0]
    };
    assert_eq!(check(signer(Algorithm::RsaSha256)), DkimResult::Pass);
    assert_eq!(
        check(signer(Algorithm::RsaSha256).agent_user_identifier("joe@Example.COM".to_string()).unwrap()),
        DkimResult::Pass
    );
    assert_eq!(
        check(
            signer(Algorithm::RsaSha256)
                .agent_user_identifier("joe@mail.example.com".to_string())
                .unwrap()
        ),
        DkimResult::PermError(Error::StrictSubdomainViolation)
    );
}

#[test]
fn identity_outside_the_signing_domain_is_refused() {
    assert!(signer(Algorithm::RsaSha256)
        .agent_user_identifier("joe@example.org".to_string())
        .is_err());
    assert!(signer(Algorithm::RsaSha256)
        .agent_user_identifier("joe@notexample.com".to_string())
        .is_err());
    assert!(signer(Algorithm::RsaSha256).agent_user_identifier("@a.b.example.com".to_string()).is_ok());
    assert_eq!(
        Signature::parse(b"v=1; a=rsa-sha1; d=example.com; s=s; h=f; i=x@example.org; bh=; b="),
        Err(Error::IdentityMismatch)
    );
}

#[test]
fn key_family_must_be_that_of_the_configured_algorithm() {
    let mut signer = signer(Algorithm::RsaSha256);
    signer.template.a = Algorithm::Ed25519Sha256;
    assert_eq!(signer.sign(MESSAGE, 1), Err(Error::KeyAlgorithmMismatch));
    signer.template.a = Algorithm::RsaSha1;
    assert_eq!(signer.sign(MESSAGE, 1).unwrap().a, Algorithm::RsaSha256);
}

#[test]
fn signing_under_a_given_algorithm() {
    let signer = signer(Algorithm::RsaSha256);
    assert_eq!(
        signer.sign_as(Algorithm::Ed25519Sha256, MESSAGE, 1),
        Err(Error::KeyAlgorithmMismatch)
    );
    let signature = signer.sign_as(Algorithm::RsaSha1, MESSAGE, 77).unwrap();
    assert_eq!(signature.a, Algorithm::RsaSha1);
    assert_eq!(signature.t, 77);
    assert_eq!(signature.x, 0);
    assert_eq!(signature.d, "example.com");
    assert_eq!(signature.h, vec!["From", "To", "Subject"]);
    let unsigned = signer.unsigned(Algorithm::RsaSha1, signature.bh.clone(), 26, 77);
    let message = Message::parse(MESSAGE);
    assert_eq!(
        signature.b,
        signer.key.sign(&unsigned.signing_input(&message.headers)).unwrap()
    );
    assert_eq!(
        unsigned.signing_input(&message.headers),
        signature.signing_input(&message.headers)
    );
}

#[test]
fn what_is_signed_is_what_is_verified() {
    let signature = signer(Algorithm::RsaSha256).sign(MESSAGE, 1000).unwrap();
    let raw = signed(&signature, MESSAGE);
    let message = Message::parse(&raw);
    let inner = Message::parse(MESSAGE);
    assert_eq!(message.headers.len(), inner.headers.len() + 1);
    assert_eq!(message.body, inner.body);
    assert_eq!(
        signature.verification_input(&message.headers, &message.headers[0]),
        signature.signing_input(&inner.headers)
    );
    let expected = b"from:Joe <joe@example.com>\r\nto:Ann <ann@example.org>\r\nsubject:A folded subject\r\n".to_vec();
    let input = signature.signing_input(&inner.headers);
    assert_eq!(&input[..expected.len()], expected.as_slice());
    assert!(input[expected.len()..].starts_with(b"dkim-signature:v=1; a=rsa-sha256; c=relaxed/relaxed;"));
    assert!(input.ends_with(b"; b="));
}

#[test]
fn body_length_limit() {
    let signature = signer(Algorithm::RsaSha256)
        .body_canonicalization(Canonicalization::Simple)
        .body_length(5)
        .sign(MESSAGE, 1000)
        .unwrap();
    assert_eq!(signature.l, 5);
    assert_eq!(signature.body_hash(), checksum(2, b"Hi.\r\n").as_slice());
    let mut raw = signed(&signature, MESSAGE);
    raw.extend_from_slice(b"appended\r\n");
    let lookup = || vec![Ok(vec![record(Algorithm::RsaSha256, "")])];
    assert_eq!(results(&raw, lookup(), 1001), vec![DkimResult::Pass]);
    let mut short = signature.to_header();
    short.extend_from_slice(b"From: a\r\n\r\nHi");
    assert_eq!(results(&short, lookup(), 1001), vec![DkimResult::PermError(Error::SignatureLength)]);
    let longer = signer(Algorithm::RsaSha256).body_length(1000).sign(MESSAGE, 1).unwrap();
    assert_eq!(longer.l, 26);
}

#[test]
fn body_hash_inputs() {
    assert_eq!(body_to_hash(b"abc\r\n", Canonicalization::Simple, 0), b"abc\r\n".to_vec());
    assert_eq!(body_to_hash(b"abc\r\n", Canonicalization::Simple, 2), b"ab".to_vec());
    assert_eq!(body_to_hash(b"abc\r\n", Canonicalization::Simple, 9), b"abc\r\n".to_vec());
    assert_eq!(body_to_verify(b"abc\r\n", Canonicalization::Simple, 0), Some(b"abc\r\n".to_vec()));
    assert_eq!(body_to_verify(b"abc\r\n", Canonicalization::Simple, 5), Some(b"abc\r\n".to_vec()));
    assert_eq!(body_to_verify(b"abc\r\n", Canonicalization::Simple, 2), Some(b"ab".to_vec()));
    assert_eq!(body_to_verify(b"abc\r\n", Canonicalization::Simple, 6), None);
}

#[test]
fn signature_bytes_are_taken_out() {
    assert_eq!(strip_signature_bytes(b" v=1; b= abc\r\n def ; bh=xyz"), b" v=1; b=; bh=xyz".to_vec());
    assert_eq!(strip_signature_bytes(b"bh=xyz; b=abc=="), b"bh=xyz; b=".to_vec());
    assert_eq!(strip_signature_bytes(b"bh=xyz"), b"bh=xyz".to_vec());
}

#[test]
fn key_is_looked_up_under_selector_and_domain() {
    let signature = signer(Algorithm::RsaSha256).sign(MESSAGE, 1).unwrap();
    assert_eq!(signature.key_query_name(), b"sel._domainkey.example.com".to_vec());
}

#[test]
fn failure_report_address() {
    let signature = signer(Algorithm::RsaSha256).reporting(true).sign(MESSAGE, 1000).unwrap();
    let mut raw = signed(&signature, MESSAGE);
    let key = record(Algorithm::RsaSha256, "ra=abuse; ");
    let run = |raw: &[u8]| {
        let message = Message::parse(raw);
        let found = find_signatures(&message.headers);
        let lookups = vec![Ok(vec![key.clone()])];
        let out = verify(&ToyVerifier, &message.headers, message.body, &found, &lookups, 1001);
        (*out[0].result(), out[0].failure_report_addr().map(|s| s.to_string()))
    };
    assert_eq!(run(&raw), (DkimResult::Pass, None));
    let last = raw.len() - 8;
    raw[last] ^= 1;
    assert_eq!(run(&raw), (DkimResult::Fail(Error::BodyHashMismatch), Some("abuse".to_string())));
}

#[test]
fn signature_holds_on_the_canonical_body() {
    for cb in [Canonicalization::Simple, Canonicalization::Relaxed] {
        let signature = signer(Algorithm::RsaSha256).body_canonicalization(cb).sign(MESSAGE, 1000).unwrap();
        let message = Message::parse(MESSAGE);
        let canonical = mail_auth::dkim::canonicalize::canonicalize_body(message.body, cb);
        let mut replaced = MESSAGE[..MESSAGE.len() - message.body.len()].to_vec();
        replaced.extend_from_slice(&canonical);
        assert_ne!(replaced, MESSAGE.to_vec());
        let lookup = || vec![Ok(vec![record(Algorithm::RsaSha256, "")])];
        assert_eq!(results(&signed(&signature, MESSAGE), lookup(), 1001), vec![DkimResult::Pass]);
        assert_eq!(results(&signed(&signature, &replaced), lookup(), 1001), vec![DkimResult::Pass]);
    }
}

#[test]
fn signature_holds_on_the_relaxed_form_of_the_header_block() {
    let first = b"From: a@x.com\r\nSubject:  Hi \r\n\r\nbody\r\n";
    let second = b"from:a@x.com\r\nsubject:Hi\r\n\r\nbody\r\n";
    let signer = DkimSigner::from_key(ToyKey { algorithm: Algorithm::RsaSha256, secret: 7 })
        .domain("x.com".to_string())
        .selector("sel".to_string())
        .headers(vec!["From".to_string(), "Subject".to_string()]);
    let signature = signer.sign(first, 5).unwrap();
    let lookup = || vec![Ok(vec![record(Algorithm::RsaSha256, "")])];
    assert_eq!(results(&signed(&signature, first), lookup(), 6), vec![DkimResult::Pass]);
    assert_eq!(results(&signed(&signature, second), lookup(), 6), vec![DkimResult::Pass]);
    let simple = signer.header_canonicalization(Canonicalization::Simple).sign(first, 5).unwrap();
    assert_eq!(
        results(&signed(&simple, second), lookup(), 6),
        vec![DkimResult::Fail(Error::BadSignature)]
    );
}

#[test]
fn two_bodies_that_hash_apart_have_body_hashes_apart() {
    let one = signer(Algorithm::RsaSha256).sign(b"From: a\r\n\r\nabcd\r\n", 1).unwrap();
    let other = signer(Algorithm::RsaSha256).sign(b"From: a\r\n\r\nabce\r\n", 1).unwrap();
    assert_ne!(one.body_hash(), other.body_hash());
    let signer = signer(Algorithm::RsaSha256);
    assert_eq!(signer.unsigned(Algorithm::RsaSha256, vec![1, 2], 4, 9).body_hash(), &[1, 2]);
    assert_eq!(signer.unsigned(Algorithm::RsaSha256, vec![1, 3], 4, 9).body_hash(), &[1, 3]);
}

#[test]
fn written_signature_reads_back() {
    let plain = signer(Algorithm::RsaSha1).sign(MESSAGE, 3).unwrap();
    let full = signer(Algorithm::Ed25519Sha256)
        .agent_user_identifier("joe@sub.example.com".to_string())
        .unwrap()
        .atps("author.example".to_string())
        .atpsh(HashAlgorithm::Sha1)
        .expiration(60)
        .body_length(7)
        .reporting(true)
        .header_canonicalization(Canonicalization::Simple)
        .sign(MESSAGE, 1_700_000_000)
        .unwrap();
    let mut copied = plain.clone();
    copied.z = vec!["From:a".to_string(), "To:b".to_string()];
    for signature in [plain, full, copied] {
        assert_eq!(Signature::parse(&signature.to_header_value()), Ok(signature.clone()));
        let header = signature.to_header();
        let message = Message::parse(&header);
        assert_eq!(message.headers.len(), 1);
        assert_eq!(message.headers[0].name, b"DKIM-Signature");
        assert_eq!(Signature::parse(message.headers[0].value), Ok(signature.clone()));
        let found = find_signatures(&message.headers);
        assert_eq!(found[0].signature, Ok(signature));
    }
}

#[test]
fn signed_message_has_one_signature() {
    let signature = signer(Algorithm::RsaSha256).sign(MESSAGE, 1000).unwrap();
    let raw = signed(&signature, MESSAGE);
    let message = Message::parse(&raw);
    let found = find_signatures(&message.headers);
    assert_eq!(found.len(), 1);
    assert_eq!(found[0].header, message.headers[0]);
    let lookups = vec![Ok(vec![record(Algorithm::RsaSha256, "")])];
    let out = verify(&ToyVerifier, &message.headers, message.body, &found, &lookups, 1001);
    assert_eq!(out.len(), 1);
    assert_eq!(*out[0].result(), DkimResult::Pass);
}
