use mail_auth::common::base64::{decode, encode};
use mail_auth::common::crypto::{Algorithm, HashAlgorithm, KeyType, SigningKey, Verifier};
use mail_auth::dkim::parse::{parse_decimal, parse_tags, split_items};
use mail_auth::dkim::records::DomainKey;
use mail_auth::dkim::{
    Atps, Canonicalization, Signature, RR_ALL, RR_DNS, RR_EXPIRATION, R_FLAG_MATCH_DOMAIN,
    R_FLAG_TESTING, R_SVC_ALL, R_SVC_EMAIL,
};
use mail_auth::{Error, Version};

struct ToyKey;

impl SigningKey for ToyKey {
    fn algorithm(&self) -> Algorithm {
        Algorithm::RsaSha256
    }

    fn hash(&self, data: &[u8]) -> Vec<u8> {
        vec![data.len() as u8]
    }

    fn sign(&self, data: &[u8]) -> Result<Vec<u8>, Error> {
        Ok(data.iter().rev().cloned().collect())
    }
}

struct ToyVerifier;

impl Verifier for ToyVerifier {
    fn hash(&self, _algorithm: HashAlgorithm, data: &[u8]) -> Vec<u8> {
        vec![data.len() as u8]
    }

    fn verify(&self, _algorithm: Algorithm, _public_key: &[u8], data: &[u8], signature: &[u8]) -> bool {
        let expected: Vec<u8> = data.iter().rev().cloned().collect();
        expected == signature
    }
}

#[test]
fn toy_capabilities_can_be_written() {
    assert_eq!(ToyKey.algorithm(), Algorithm::RsaSha256);
    assert_eq!(ToyKey.hash(b"abc"), vec![3]);
    assert!(ToyVerifier.verify(Algorithm::RsaSha1, b"", b"ab", b"ba"));
    assert_eq!(ToyVerifier.hash(HashAlgorithm::Sha1, b""), vec![0]);
}

#[test]
fn base64_known_values() {
    assert_eq!(encode(b""), b"".to_vec());
    assert_eq!(encode(b"f"), b"Zg==".to_vec());
    assert_eq!(encode(b"fo"), b"Zm8=".to_vec());
    assert_eq!(encode(b"foo"), b"Zm9v".to_vec());
    assert_eq!(encode(b"foobar"), b"Zm9vYmFy".to_vec());
    assert_eq!(encode(&[0xfb, 0xff, 0xfe]), b"+//+".to_vec());
    assert_eq!(decode(b"Zm9vYmFy"), Some(b"foobar".to_vec()));
    assert_eq!(decode(b"Zm9v\r\n YmE="), Some(b"fooba".to_vec()));
    assert_eq!(decode(b"Zg=="), Some(b"f".to_vec()));
    assert_eq!(decode(b"Zg"), Some(b"f".to_vec()));
    assert_eq!(decode(b""), Some(Vec::new()));
}

#[test]
fn base64_rejects_what_is_no_base64() {
    assert_eq!(decode(b"Zm9v!"), None);
    assert_eq!(decode(b"Z"), None);
    assert_eq!(decode(b"Zg==="), None);
    assert_eq!(decode(b"Zg="), None);
    assert_eq!(decode(b"Zm=9v"), None);
}

#[test]
fn base64_round_trip() {
    for len in 0..40usize {
        let data: Vec<u8> = (0..len).map(|i| (i * 37 + 11) as u8).collect();
        assert_eq!(decode(&encode(&data)), Some(data));
    }
}

#[test]
fn decimal_numbers() {
    assert_eq!(parse_decimal(b"0"), Some(0));
    assert_eq!(parse_decimal(b"0042"), Some(42));
    assert_eq!(parse_decimal(b"18446744073709551615"), Some(u64::MAX));
    assert_eq!(parse_decimal(b"18446744073709551616"), None);
    assert_eq!(parse_decimal(b""), None);
    assert_eq!(parse_decimal(b"12a"), None);
    assert_eq!(parse_decimal(b"-1"), None);
}

#[test]
fn tag_lists() {
    let tags = parse_tags(b" v = 1 ;a=rsa-sha256;\r\n\tb = a b ; ;").unwrap();
    assert_eq!(tags.len(), 3);
    assert_eq!(tags[0].name, b"v");
    assert_eq!(tags[0].value, b"1");
    assert_eq!(tags[1].name, b"a");
    assert_eq!(tags[1].value, b"rsa-sha256");
    assert_eq!(tags[2].name, b"b");
    assert_eq!(tags[2].value, b"a b");
    assert_eq!(parse_tags(b"").unwrap().len(), 0);
    assert!(parse_tags(b"v=1; junk; a=b").is_none());
    assert!(parse_tags(b"=1").is_none());
    let empty_value = parse_tags(b"p=").unwrap();
    assert_eq!(empty_value[0].value, b"");
    let with_equals = parse_tags(b"b=abc==").unwrap();
    assert_eq!(with_equals[0].value, b"abc==");
}

#[test]
fn list_items() {
    let items = split_items(b" From : to:: Subject ", b':');
    assert_eq!(items, vec![&b"From"[..], &b"to"[..], &b"Subject"[..]]);
    assert_eq!(split_items(b"", b':').len(), 0);
}

const SIGNATURE: &[u8] = b"v=1; a=rsa-sha256; c=relaxed/simple; d=example.com; s=sel;\r\n\
    \th=From:To:Subject; i=@mail.example.com; l=12; t=100; x=200; r=y;\r\n\
    \tbh=Zm9v; atps=other.example; atpsh=sha1; z=From:a|To:b; unknown=tag;\r\n\
    \tb=YmFy\r\n YmF6";

#[test]
fn signature_with_every_tag() {
    let sig = Signature::parse(SIGNATURE).unwrap();
    assert_eq!(sig.v, 1);
    assert_eq!(sig.a, Algorithm::RsaSha256);
    assert_eq!(sig.ch, Canonicalization::Relaxed);
    assert_eq!(sig.cb, Canonicalization::Simple);
    assert_eq!(sig.d, "example.com");
    assert_eq!(sig.s, "sel");
    assert_eq!(sig.h, vec!["From", "To", "Subject"]);
    assert_eq!(sig.identity(), "@mail.example.com");
    assert_eq!(sig.l, 12);
    assert_eq!(sig.t, 100);
    assert_eq!(sig.x, 200);
    assert!(sig.r);
    assert_eq!(sig.body_hash(), b"foo");
    assert_eq!(sig.b, b"barbaz");
    assert_eq!(sig.atps.as_deref(), Some("other.example"));
    assert_eq!(sig.atpsh, Some(HashAlgorithm::Sha1));
    assert_eq!(sig.z, vec!["From:a", "To:b"]);
}

#[test]
fn signature_defaults() {
    let sig = Signature::parse(b"v=1; a=ed25519-sha256; d=d; s=s; h=from; bh=; b=").unwrap();
    assert_eq!(sig.a, Algorithm::Ed25519Sha256);
    assert_eq!(sig.ch, Canonicalization::Simple);
    assert_eq!(sig.cb, Canonicalization::Simple);
    assert_eq!(sig.identity(), "");
    assert_eq!((sig.l, sig.t, sig.x), (0, 0, 0));
    assert!(!sig.r);
    assert_eq!(sig.atps, None);
    assert_eq!(sig.atpsh, None);
    assert!(sig.z.is_empty());
    assert!(sig.b.is_empty());
}

#[test]
fn signature_missing_a_required_tag() {
    let tags = ["v=1", "a=rsa-sha1", "d=d", "s=s", "h=from", "bh=Zm9v", "b=Zm9v"];
    for skip in 0..tags.len() {
        let parts: Vec<&str> =
            tags.iter().enumerate().filter(|(i, _)| *i != skip).map(|(_, t)| *t).collect();
        let value = parts.join("; ");
        assert_eq!(Signature::parse(value.as_bytes()), Err(Error::SignatureParseError));
    }
    assert!(Signature::parse(tags.join("; ").as_bytes()).is_ok());
}

#[test]
fn signature_errors() {
    let parse = |s: &str| Signature::parse(s.as_bytes());
    assert_eq!(parse("v=2; a=rsa-sha1; d=d; s=s; h=f; bh=; b="), Err(Error::SignatureParseError));
    assert_eq!(parse("v=1; a=dsa-sha1; d=d; s=s; h=f; bh=; b="), Err(Error::UnsupportedAlgorithm));
    assert_eq!(
        parse("v=1; a=rsa-sha1; c=nofws; d=d; s=s; h=f; bh=; b="),
        Err(Error::UnsupportedCanonicalization)
    );
    assert_eq!(parse("v=1; a=rsa-sha1; d=d; s=s; h=f; bh=!; b="), Err(Error::SignatureParseError));
    assert_eq!(parse("v=1; a=rsa-sha1; d=d; s=s; h=f; bh=; b=; t=x"), Err(Error::SignatureParseError));
    assert_eq!(
        parse("v=1; a=rsa-sha1; d=d; s=s; h=f; bh=; b=; atpsh=md5"),
        Err(Error::UnsupportedAlgorithm)
    );
    assert_eq!(parse("v=1; a=rsa-sha1; d=d; s=s; h=f; bh=; b=; oops"), Err(Error::SignatureParseError));
    assert_eq!(
        Signature::parse(b"v=1; a=rsa-sha1; d=\xff; s=s; h=f; bh=; b="),
        Err(Error::SignatureParseError)
    );
}

#[test]
fn text_that_is_not_ascii_is_kept() {
    let sig = Signature::parse("v=1; a=rsa-sha1; d=b\u{fc}cher.example; s=s; h=f; bh=; b=".as_bytes())
        .unwrap();
    assert_eq!(sig.d, "b\u{fc}cher.example");
}

#[test]
fn first_of_two_tags_counts() {
    let sig = Signature::parse(b"v=1; a=rsa-sha1; d=one; d=two; s=s; h=f; bh=; b=").unwrap();
    assert_eq!(sig.d, "one");
}

#[test]
fn expiration() {
    let mut sig = Signature::parse(b"v=1; a=rsa-sha1; d=d; s=s; h=f; bh=; b=; t=100; x=200").unwrap();
    assert!(!sig.is_expired(150));
    assert!(!sig.is_expired(200));
    assert!(sig.is_expired(201));
    sig.x = 50;
    assert!(sig.is_expired(0));
    sig.x = 0;
    assert!(!sig.is_expired(u64::MAX));
}

#[test]
fn key_record() {
    let key = DomainKey::parse(b"v=DKIM1; k=ed25519; h=sha256; s=email; t=y:s; p=Zm9v").unwrap();
    assert_eq!(key.p, b"foo");
    assert_eq!(key.k, KeyType::Ed25519);
    assert_eq!(key.f, 0x02 | R_SVC_EMAIL | R_FLAG_TESTING | R_FLAG_MATCH_DOMAIN);
    assert!(key.has_flag(R_FLAG_TESTING));
    assert!(key.has_flag(R_SVC_ALL | R_SVC_EMAIL));
    assert!(!key.has_flag(R_SVC_ALL));
    assert!(!key.has_flag(0x01));
    assert_eq!(key.report, None);
    let plain = DomainKey::parse(b"p=Zm9v").unwrap();
    assert_eq!(plain.k, KeyType::Rsa);
    assert_eq!(plain.f, 0x01 | 0x02 | R_SVC_ALL);
}

#[test]
fn key_record_errors() {
    assert_eq!(DomainKey::parse(b"v=DKIM1; k=rsa"), Err(Error::KeyRevoked));
    assert_eq!(DomainKey::parse(b"v=DKIM1; p="), Err(Error::KeyRevoked));
    assert_eq!(DomainKey::parse(b"v=DKIM2; p=Zm9v"), Err(Error::KeyRecordParseError));
    assert_eq!(DomainKey::parse(b"k=dsa; p=Zm9v"), Err(Error::KeyRecordParseError));
    assert_eq!(DomainKey::parse(b"p=!!"), Err(Error::KeyRecordParseError));
    assert_eq!(DomainKey::parse(b"p=Zm9v; junk"), Err(Error::KeyRecordParseError));
    assert_eq!(DomainKey::parse(b"p=Zm9v; ra=abuse; rp=101"), Err(Error::KeyRecordParseError));
}

#[test]
fn key_record_with_report_request() {
    let key = DomainKey::parse(b"p=Zm9v; ra=abuse; rp=25; rr=d:x; rs=rejected").unwrap();
    let report = key.report.unwrap();
    assert_eq!(report.ra, "abuse");
    assert_eq!(report.rp, 25);
    assert_eq!(report.rr, RR_DNS | RR_EXPIRATION);
    assert_eq!(report.rs.as_deref(), Some("rejected"));
    let defaults = DomainKey::parse(b"p=Zm9v; ra=abuse").unwrap().report.unwrap();
    assert_eq!(defaults.rp, 100);
    assert_eq!(defaults.rr, RR_ALL);
    assert_eq!(defaults.rs, None);
}

#[test]
fn atps_record() {
    assert_eq!(
        Atps::parse(b"v=ATPS1; d=example.com"),
        Ok(Atps { v: Version::V1, d: Some("example.com".to_string()) })
    );
    assert_eq!(Atps::parse(b"v=ATPS1"), Ok(Atps { v: Version::V1, d: None }));
    assert_eq!(Atps::parse(b"d=example.com"), Err(Error::AtpsParseError));
    assert_eq!(Atps::parse(b"v=ATPS2"), Err(Error::AtpsParseError));
    assert_eq!(Atps::parse(b"v=ATPS1; ;; x"), Err(Error::AtpsParseError));
}

#[test]
fn written_list_reads_back() {
    let list: Vec<&[u8]> = vec![b"From", b"Reply-To", b"x y"];
    let joined = list.join(&b':');
    assert_eq!(split_items(&joined, b':'), list);
    assert_eq!(split_items(b"one", b'|'), vec![&b"one"[..]]);
}
