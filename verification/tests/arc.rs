use mail_auth::arc::{
    chain_result, find_arc, order_instances, seal_input_of, verify_arc, verify_chain,
    ChainValidation, Link, Results, Seal, SetHeaders, SetIndex,
};
use mail_auth::common::base64::encode;
use mail_auth::common::crypto::{Algorithm, HashAlgorithm, Verifier};
use mail_auth::common::verify::VerifySignature;
use mail_auth::dkim::headers::{Header, Message};
use mail_auth::dkim::verify::Lookup;
use mail_auth::dkim::Signature;
use mail_auth::{DkimResult, DnsFailure, Error};

fn checksum(tag: u8, data: &[u8]) -> Vec<u8> {
    let mut a: u32 = 1;
    let mut b: u32 = tag as u32;
    for &x in data {
        a = (a + x as u32) % 65521;
        b = (b + a) % 65521;
    }
    vec![(b >> 8) as u8, b as u8, (a >> 8) as u8, a as u8]
}

struct ToyVerifier;

impl Verifier for ToyVerifier {
    fn hash(&self, _algorithm: HashAlgorithm, data: &[u8]) -> Vec<u8> {
        checksum(2, data)
    }

    fn verify(&self, _algorithm: Algorithm, public_key: &[u8], data: &[u8], signature: &[u8]) -> bool {
        public_key.len() == 1 && checksum(public_key[0], data) == signature
    }
}

fn link(instance: u32, cv: ChainValidation) -> Link {
    Link { instance, cv, signature: DkimResult::Pass, seal: DkimResult::Pass }
}

#[test]
fn three_instances_that_pass_make_a_passing_chain() {
    let links = [
        link(1, ChainValidation::Neutral),
        link(2, ChainValidation::Pass),
        link(3, ChainValidation::Pass),
    ];
    assert_eq!(chain_result(&links), DkimResult::Pass);
    assert_eq!(chain_result(&links[..1]), DkimResult::Pass);
}

#[test]
fn chain_status_out_of_sequence_fails() {
    let statuses = [ChainValidation::Neutral, ChainValidation::Fail, ChainValidation::Pass];
    for first in statuses {
        for second in statuses {
            for third in statuses {
                let links = [link(1, first), link(2, second), link(3, third)];
                let whole = first == ChainValidation::Neutral
                    && second == ChainValidation::Pass
                    && third == ChainValidation::Pass;
                let expected =
                    if whole { DkimResult::Pass } else { DkimResult::Fail(Error::ArcBrokenChain) };
                assert_eq!(chain_result(&links), expected);
            }
        }
    }
}

#[test]
fn failed_signature_or_seal_fails_the_chain() {
    let mut links = [link(1, ChainValidation::Neutral), link(2, ChainValidation::Pass)];
    links[0].signature = DkimResult::Fail(Error::BodyHashMismatch);
    assert_eq!(chain_result(&links), DkimResult::Fail(Error::ArcBrokenChain));
    links[0].signature = DkimResult::Pass;
    links[1].seal = DkimResult::TempError(Error::DnsError(DnsFailure::Timeout));
    assert_eq!(chain_result(&links), DkimResult::Fail(Error::ArcBrokenChain));
}

#[test]
fn empty_chain_is_neutral() {
    assert_eq!(chain_result(&[]), DkimResult::Neutral(Error::NoArcSet));
}

#[test]
fn instance_numbers_must_count_up_from_one() {
    let invalid = DkimResult::PermError(Error::ArcInstanceSequenceInvalid);
    assert_eq!(chain_result(&[link(2, ChainValidation::Neutral)]), invalid);
    assert_eq!(
        chain_result(&[link(1, ChainValidation::Neutral), link(3, ChainValidation::Pass)]),
        invalid
    );
    assert_eq!(
        chain_result(&[link(1, ChainValidation::Neutral), link(1, ChainValidation::Pass)]),
        invalid
    );
    let mut broken = link(2, ChainValidation::Neutral);
    broken.seal = DkimResult::Fail(Error::BadSignature);
    assert_eq!(chain_result(&[broken]), invalid);
}

#[test]
fn sets_are_ordered_by_instance() {
    assert_eq!(
        order_instances(&[2, 1], &[1, 2], &[2, 1]),
        Some(vec![
            SetIndex { results: 1, signature: 0, seal: 1 },
            SetIndex { results: 0, signature: 1, seal: 0 },
        ])
    );
    assert_eq!(order_instances(&[], &[], &[]), Some(vec![]));
    assert_eq!(order_instances(&[1], &[1], &[2]), None);
    assert_eq!(order_instances(&[1, 1], &[1, 2], &[1, 2]), None);
    assert_eq!(order_instances(&[1], &[1, 2], &[1, 2]), None);
    assert_eq!(order_instances(&[1, 3], &[1, 3], &[1, 3]), None);
}

#[test]
fn seal_and_results_are_read() {
    let seal = Seal::parse(b"i=2; a=ed25519-sha256; cv=pass; d=example.org; s=arc; t=12345; b=Zm9v")
        .unwrap();
    assert_eq!(seal.i, 2);
    assert_eq!(seal.algorithm(), Algorithm::Ed25519Sha256);
    assert_eq!(seal.cv, ChainValidation::Pass);
    assert_eq!(seal.domain(), "example.org");
    assert_eq!(seal.selector(), "arc");
    assert_eq!(seal.t, 12345);
    assert_eq!(seal.signature(), b"foo");
    assert_eq!(
        Seal::parse(b"i=1; a=rsa-sha256; cv=none; d=d; s=s; b=").unwrap().cv,
        ChainValidation::Neutral
    );
    assert_eq!(
        Seal::parse(b"i=1; a=rsa-sha256; cv=fail; d=d; s=s; b=").unwrap().cv,
        ChainValidation::Fail
    );
    for bad in [
        &b"a=rsa-sha256; cv=none; d=d; s=s; b="[..],
        b"i=0; a=rsa-sha256; cv=none; d=d; s=s; b=",
        b"i=51; a=rsa-sha256; cv=none; d=d; s=s; b=",
        b"i=1; a=rsa-sha256; cv=maybe; d=d; s=s; b=",
        b"i=1; a=rsa-sha256; d=d; s=s; b=",
        b"i=1; a=rsa-sha256; cv=none; d=d; s=s; b=!",
    ] {
        assert_eq!(Seal::parse(bad), Err(Error::SignatureParseError));
    }
    assert_eq!(
        Seal::parse(b"i=1; a=rsa-md5; cv=none; d=d; s=s; b="),
        Err(Error::UnsupportedAlgorithm)
    );
    assert_eq!(Results::parse(b" i=3; mx.example.com; spf=pass"), Ok(Results { i: 3 }));
    assert_eq!(Results::parse(b"i=50"), Ok(Results { i: 50 }));
    assert_eq!(Results::parse(b"mx.example.com; i=3"), Err(Error::SignatureParseError));
    assert_eq!(Results::parse(b"i=x; spf=pass"), Err(Error::SignatureParseError));
}

#[test]
fn message_signature_is_read_with_its_instance() {
    let (n, sig) =
        Signature::parse_arc(b"i=4; a=rsa-sha256; d=example.org; s=arc; h=From:To; bh=Zm9v; b=YmFy")
            .unwrap();
    assert_eq!(n, 4);
    assert_eq!(sig.identity(), "");
    assert_eq!(sig.d, "example.org");
    assert_eq!(
        Signature::parse_arc(b"a=rsa-sha256; d=d; s=s; h=f; bh=; b="),
        Err(Error::SignatureParseError)
    );
}

const INNER: &[u8] = b"From: Joe <joe@example.com>\r\nTo: ann@example.org\r\nSubject: Hello\r\n\r\nHi there.\r\n";

fn header_line(name: &str, value: &[u8]) -> Vec<u8> {
    let mut out = name.as_bytes().to_vec();
    out.extend_from_slice(b": ");
    out.extend_from_slice(value);
    out.extend_from_slice(b"\r\n");
    out
}

fn with_signature_bytes(unsigned: &[u8], b: &[u8]) -> Vec<u8> {
    let mut out = unsigned.to_vec();
    out.extend_from_slice(&encode(b));
    out
}

/// The message with one more instance added on top, sealed with the toy key
/// whose public form is the byte `key`.
fn extend(message: &[u8], instance: u32, cv: &str, key: u8) -> Vec<u8> {
    let parsed = Message::parse(message);
    let bh = encode(&checksum(2, &mail_auth::dkim::canonicalize::canonicalize_body(
        parsed.body,
        mail_auth::dkim::Canonicalization::Relaxed,
    )));
    let results = format!(" i={}; mx.example.org; dkim=pass\r\n", instance).into_bytes();
    let mut unsigned = format!(
        " i={}; a=rsa-sha256; c=relaxed/relaxed; d=example.org; s=arc; h=From:To:Subject; bh=",
        instance
    )
    .into_bytes();
    unsigned.extend_from_slice(&bh);
    unsigned.extend_from_slice(b"; b=");
    let (_, signature) = Signature::parse_arc(&unsigned).unwrap();
    let own = Header { name: b"ARC-Message-Signature", value: &unsigned };
    let b = checksum(key, &signature.verification_input(&parsed.headers, &own));
    let mut signed = with_signature_bytes(&unsigned, &b);
    signed.extend_from_slice(b"\r\n");

    let unsealed =
        format!(" i={}; a=rsa-sha256; cv={}; d=example.org; s=arc; t=5; b=", instance, cv)
            .into_bytes();
    let earlier = find_arc(&parsed.headers).unwrap();
    let order = earlier.order().unwrap();
    let mut sets: Vec<SetHeaders> = order
        .iter()
        .map(|at| SetHeaders {
            results: earlier.results[at.results].0,
            signature: earlier.signatures[at.signature].0,
            seal: earlier.seals[at.seal].0,
        })
        .collect();
    sets.push(SetHeaders {
        results: Header { name: b"ARC-Authentication-Results", value: &results },
        signature: Header { name: b"ARC-Message-Signature", value: &signed },
        seal: Header { name: b"ARC-Seal", value: &unsealed },
    });
    let seal_bytes = checksum(key, &seal_input_of(&sets, sets.len() - 1));
    let mut sealed = with_signature_bytes(&unsealed, &seal_bytes);
    sealed.extend_from_slice(b"\r\n");

    let mut out = b"ARC-Seal:".to_vec();
    out.extend_from_slice(&sealed);
    out.extend_from_slice(b"ARC-Message-Signature:");
    out.extend_from_slice(&signed);
    out.extend_from_slice(b"ARC-Authentication-Results:");
    out.extend_from_slice(&results);
    out.extend_from_slice(message);
    out
}

fn key_record(key: u8) -> Lookup {
    let mut txt = b"v=DKIM1; p=".to_vec();
    txt.extend_from_slice(&encode(&[key]));
    Ok(vec![txt])
}

fn verdict(message: &[u8], lookups: usize) -> (DkimResult, Vec<Link>, usize) {
    let parsed = Message::parse(message);
    let fields = find_arc(&parsed.headers).unwrap();
    let signature_lookups: Vec<Lookup> = (0..lookups).map(|_| key_record(9)).collect();
    let seal_lookups: Vec<Lookup> = (0..lookups).map(|_| key_record(9)).collect();
    let (out, links) = verify_chain(
        &ToyVerifier,
        &parsed.headers,
        parsed.body,
        &fields,
        &signature_lookups,
        &seal_lookups,
        100,
    );
    assert_eq!(out.sets().len(), links.len());
    for (k, set) in out.sets().iter().enumerate() {
        assert_eq!(set.seal.i as usize, k + 1);
        assert_eq!(set.results.i as usize, k + 1);
        assert_eq!(set.seal.cv, links[k].cv);
    }
    (*out.result(), links, out.sets().len())
}

#[test]
fn chain_of_three_relays_passes() {
    let one = extend(INNER, 1, "none", 9);
    let two = extend(&one, 2, "pass", 9);
    let three = extend(&two, 3, "pass", 9);
    let (result, links, sets) = verdict(&three, 3);
    assert_eq!(result, DkimResult::Pass);
    assert_eq!(sets, 3);
    assert_eq!(
        links,
        vec![
            link(1, ChainValidation::Neutral),
            link(2, ChainValidation::Pass),
            link(3, ChainValidation::Pass),
        ]
    );
    assert_eq!(verdict(&one, 1).0, DkimResult::Pass);
}

#[test]
fn relay_that_declares_the_wrong_status_breaks_the_chain() {
    let one = extend(INNER, 1, "none", 9);
    let two = extend(&one, 2, "fail", 9);
    let three = extend(&two, 3, "pass", 9);
    let (result, links, _) = verdict(&three, 3);
    assert_eq!(result, DkimResult::Fail(Error::ArcBrokenChain));
    assert_eq!(links[1].cv, ChainValidation::Fail);
    assert_eq!(links[1].seal, DkimResult::Pass);
    let first_passes = extend(INNER, 1, "pass", 9);
    assert_eq!(verdict(&first_passes, 1).0, DkimResult::Fail(Error::ArcBrokenChain));
}

#[test]
fn seal_binds_what_came_before() {
    let one = extend(INNER, 1, "none", 9);
    let two = extend(&one, 2, "pass", 9);
    let at = two.windows(7).position(|w| w == b"cv=none").unwrap();
    let mut forged = two.clone();
    forged[at + 3..at + 7].copy_from_slice(b"pass");
    let (result, links, _) = verdict(&forged, 2);
    assert_eq!(result, DkimResult::Fail(Error::ArcBrokenChain));
    assert_eq!(links[0].seal, DkimResult::Fail(Error::BadSignature));
    assert_eq!(links[1].seal, DkimResult::Fail(Error::BadSignature));
}

#[test]
fn changed_body_breaks_the_chain() {
    let one = extend(INNER, 1, "none", 9);
    let mut changed = one.clone();
    let last = changed.len() - 4;
    changed[last] = b'X';
    let (result, links, _) = verdict(&changed, 1);
    assert_eq!(result, DkimResult::Fail(Error::ArcBrokenChain));
    assert_eq!(links[0].signature, DkimResult::Fail(Error::BodyHashMismatch));
    assert_eq!(links[0].seal, DkimResult::Pass);
}

#[test]
fn seal_by_another_key_breaks_the_chain() {
    let one = extend(INNER, 1, "none", 8);
    let (result, links, _) = verdict(&one, 1);
    assert_eq!(result, DkimResult::Fail(Error::ArcBrokenChain));
    assert_eq!(links[0].signature, DkimResult::Fail(Error::BadSignature));
    assert_eq!(links[0].seal, DkimResult::Fail(Error::BadSignature));
}

#[test]
fn lookup_that_is_not_there_counts_as_unanswered() {
    let one = extend(INNER, 1, "none", 9);
    let (result, links, _) = verdict(&one, 0);
    assert_eq!(result, DkimResult::Fail(Error::ArcBrokenChain));
    assert_eq!(links[0].seal, DkimResult::TempError(Error::DnsError(DnsFailure::Timeout)));
}

#[test]
fn message_without_arc_fields_has_no_chain() {
    let (result, links, sets) = verdict(INNER, 0);
    assert_eq!(result, DkimResult::Neutral(Error::NoArcSet));
    assert!(links.is_empty());
    assert_eq!(sets, 0);
}

#[test]
fn gap_or_repeat_among_the_instances_is_a_permanent_error() {
    let one = extend(INNER, 1, "none", 9);
    let gap = extend(&one, 3, "pass", 9);
    let parsed = Message::parse(&gap);
    let fields = find_arc(&parsed.headers).unwrap();
    assert_eq!(fields.order(), None);
    let none: Vec<Lookup> = Vec::new();
    let (out, links) =
        verify_chain(&ToyVerifier, &parsed.headers, parsed.body, &fields, &none, &none, 1);
    assert_eq!(*out.result(), DkimResult::PermError(Error::ArcInstanceSequenceInvalid));
    assert!(out.sets().is_empty());
    assert!(links.is_empty());

    let mut lone = header_line("ARC-Seal", b"i=1; a=rsa-sha256; cv=none; d=d; s=s; b=");
    lone.extend_from_slice(INNER);
    let parsed = Message::parse(&lone);
    let fields = find_arc(&parsed.headers).unwrap();
    assert_eq!(fields.order(), None);
}

#[test]
fn arc_field_that_cannot_be_read_is_reported() {
    let mut raw = header_line("ARC-Seal", b"i=1; a=rsa-sha256; cv=none; d=d; s=s");
    raw.extend_from_slice(&header_line("arc-authentication-results", b"i=1; none"));
    raw.extend_from_slice(INNER);
    let parsed = Message::parse(&raw);
    assert_eq!(find_arc(&parsed.headers).err(), Some(Error::SignatureParseError));
    let found = find_arc(&parsed.headers);
    let none: Vec<Lookup> = Vec::new();
    let (out, links) =
        verify_arc(&ToyVerifier, &parsed.headers, parsed.body, &found, &none, &none, 1);
    assert_eq!(*out.result(), DkimResult::PermError(Error::SignatureParseError));
    assert!(out.sets().is_empty() && links.is_empty());
    let plain = Message::parse(INNER);
    let fields = find_arc(&plain.headers).unwrap();
    assert!(fields.results.is_empty() && fields.signatures.is_empty() && fields.seals.is_empty());
}
