//! Writing a signature out as a header field, and signing a message.

use vstd::prelude::*;
use vstd::slice::slice_to_vec;
use vstd::utf8::encode_utf8;
use crate::common::base64::{base64_encode, encode};
use crate::common::crypto::{
    ask_algorithm, ask_hash, ask_signature, key_hashes, key_reports, key_signs, Algorithm,
    HashAlgorithm, SigningKey,
};
use crate::dkim::canonicalize::{
    canonical_body, canonical_header, canonicalize_body, canonicalize_header, COLON, SP,
};
use crate::dkim::headers::{
    canonicalize_signed_fields, headers_view, message_body, message_headers, name_bytes,
    signed_fields, Field, Header, Message,
};
use crate::dkim::parse::{ascii, BAR};
use crate::dkim::{Canonicalization, DkimSigner, Done, Signature, SignatureView};
use crate::Error;

verus! {

/// The decimal digits of `n`.
pub open spec fn decimal_digits(n: nat) -> Seq<u8>
    decreases n,
{
    if n < 10 {
        seq![(48 + n) as u8]
    } else {
        decimal_digits(n / 10).push((48 + n % 10) as u8)
    }
}

/// The name of an algorithm, as `a=` has it.
pub open spec fn algorithm_name(a: Algorithm) -> Seq<u8> {
    match a {
        Algorithm::RsaSha256 => ascii("rsa-sha256"),
        Algorithm::RsaSha1 => ascii("rsa-sha1"),
        Algorithm::Ed25519Sha256 => ascii("ed25519-sha256"),
    }
}

/// The name of a canonicalization, as `c=` has it.
pub open spec fn canonicalization_name(c: Canonicalization) -> Seq<u8> {
    match c {
        Canonicalization::Relaxed => ascii("relaxed"),
        Canonicalization::Simple => ascii("simple"),
    }
}

/// The name of a hash function, as `atpsh=` has it.
pub open spec fn hash_name(h: HashAlgorithm) -> Seq<u8> {
    match h {
        HashAlgorithm::Sha256 => ascii("sha256"),
        HashAlgorithm::Sha1 => ascii("sha1"),
    }
}

/// The items of a list with `sep` between each two.
pub open spec fn joined(items: Seq<Seq<u8>>, sep: u8) -> Seq<u8>
    decreases items.len(),
{
    if items.len() == 0 {
        Seq::<u8>::empty()
    } else if items.len() == 1 {
        items[0]
    } else {
        joined(items.drop_last(), sep).push(sep) + items.last()
    }
}

/// `text` followed by a tag with a number, if the number is not 0.
pub open spec fn with_number(text: Seq<u8>, tag: Seq<u8>, n: u64) -> Seq<u8> {
    if n != 0 {
        text + tag + decimal_digits(n as nat)
    } else {
        text
    }
}

/// The tags that every signature has, but for the two hashes.
pub open spec fn required_tags(sig: SignatureView) -> Seq<u8> {
    ascii("v=1; a=") + algorithm_name(sig.a) + ascii("; c=") + canonicalization_name(sig.ch)
        + ascii("/") + canonicalization_name(sig.cb) + ascii("; d=") + sig.d + ascii("; s=") + sig.s
        + ascii("; h=") + joined(sig.h, COLON)
}

/// `text` followed by the identity and the numbers of `sig` that are there.
pub open spec fn with_numbers(text: Seq<u8>, sig: SignatureView) -> Seq<u8> {
    let identity = if sig.i.len() > 0 {
        text + ascii("; i=") + sig.i
    } else {
        text
    };
    with_number(
        with_number(with_number(identity, ascii("; l="), sig.l), ascii("; t="), sig.t),
        ascii("; x="),
        sig.x,
    )
}

/// `text` followed by the report request, the third-party tags and the
/// copied header fields of `sig` that are there.
pub open spec fn with_options(text: Seq<u8>, sig: SignatureView) -> Seq<u8> {
    let reporting = if sig.r {
        text + ascii("; r=y")
    } else {
        text
    };
    let atps = match sig.atps {
        Some(domain) => reporting + ascii("; atps=") + domain,
        None => reporting,
    };
    let atpsh = match sig.atpsh {
        Some(h) => atps + ascii("; atpsh=") + hash_name(h),
        None => atps,
    };
    if sig.z.len() > 0 {
        atpsh + ascii("; z=") + joined(sig.z, BAR)
    } else {
        atpsh
    }
}

/// `text` followed by the body hash and the signature bytes of `sig`.
pub open spec fn with_hashes(text: Seq<u8>, sig: SignatureView) -> Seq<u8> {
    text + ascii("; bh=") + base64_encode(sig.bh) + ascii("; b=") + base64_encode(sig.b)
}

/// The value of the DKIM-Signature header field that states `sig`.
///
/// The tags stand on one line, parted by a semicolon and a space, in the
/// order v, a, c, d, s, h, i, l, t, x, r, atps, atpsh, z, bh, b. A tag whose
/// value is empty, 0 or absent is left out, but for the first six and the
/// last two.
pub open spec fn signature_text(sig: SignatureView) -> Seq<u8> {
    with_hashes(with_options(with_numbers(required_tags(sig), sig), sig), sig)
}

/// The header field that states `sig`, line terminator included.
pub open spec fn signature_header(sig: SignatureView) -> Seq<u8> {
    ascii("DKIM-Signature: ") + signature_text(sig) + ascii("\r\n")
}

/// What a signer hashes of a body: its canonical form, cut at `limit` bytes
/// if `limit` is not 0.
pub open spec fn hashed_body(body: Seq<u8>, cb: Canonicalization, limit: u64) -> Seq<u8> {
    let canonical = canonical_body(body, cb);
    if limit != 0 && limit < canonical.len() {
        canonical.take(limit as int)
    } else {
        canonical
    }
}

/// The time at which a signature made at `now` expires, `offset` seconds
/// later: 0, for never, if `offset` is 0; the last second there is if the
/// sum does not fit.
pub open spec fn expiry(offset: u64, now: u64) -> u64 {
    if offset == 0 {
        0
    } else if now + offset > u64::MAX {
        u64::MAX
    } else {
        (now + offset) as u64
    }
}

/// The signature that a signer with `template` makes at `now`, before its
/// signature bytes are there: `algorithm` and `body_hash` come from the key,
/// `hashed` is how many body bytes went into the hash.
pub open spec fn unsigned_view(
    template: SignatureView,
    algorithm: Algorithm,
    body_hash: Seq<u8>,
    hashed: nat,
    now: u64,
) -> SignatureView {
    SignatureView {
        a: algorithm,
        bh: body_hash,
        b: Seq::<u8>::empty(),
        l: if template.l == 0 {
            0
        } else {
            hashed as u64
        },
        t: now,
        x: expiry(template.x, now),
        ..template
    }
}

/// What is signed for `sig` on a message with the header fields `headers`:
/// the canonical forms of the fields that `h=` selects, then that of the
/// signature's own field with empty signature bytes and no line terminator.
pub open spec fn signing_input(headers: Seq<Field>, sig: SignatureView) -> Seq<u8> {
    signed_fields(headers, sig.h, sig.ch) + canonical_header(
        ascii("DKIM-Signature"),
        seq![SP] + signature_text(SignatureView { b: Seq::<u8>::empty(), ..sig }),
        sig.ch,
    )
}

/// The view of what signing gave.
pub open spec fn signing_view(outcome: Result<Signature, Error>) -> Result<SignatureView, Error> {
    match outcome {
        Ok(sig) => Ok(sig@),
        Err(e) => Err(e),
    }
}

/// The signature bytes of what signing gave.
pub open spec fn signed_bytes(outcome: Result<SignatureView, Error>) -> Result<Seq<u8>, Error> {
    match outcome {
        Ok(sig) => Ok(sig.b),
        Err(e) => Err(e),
    }
}

/// Whether `outcome` is what asking `key` to sign for `unsigned` gives, on a
/// message with the header fields `headers`: the key's error, or `unsigned`
/// with the key's signature bytes.
pub open spec fn is_signed<K: SigningKey>(
    key: &K,
    unsigned: SignatureView,
    headers: Seq<Field>,
    outcome: Result<SignatureView, Error>,
) -> bool {
    &&& key_signs(key, signing_input(headers, unsigned), signed_bytes(outcome))
    &&& outcome is Ok ==> outcome->Ok_0 == (SignatureView { b: outcome->Ok_0.b, ..unsigned })
}

/// Whether `outcome` is what a signer with `key` and `template` gives at
/// `now` for a message with the header fields `headers` and the body
/// `body`, the key being taken to sign with `algorithm`.
///
/// If the family of `algorithm` is not that of the configured algorithm,
/// the error is `KeyAlgorithmMismatch` and the key is not asked for
/// anything. Else the key is asked for the digest of [`hashed_body`] and,
/// with that digest as the body hash, for its signature over
/// [`signing_input`]. An error is then the key's own; a signature is the
/// template with algorithm, body hash, body length and times set as
/// [`unsigned_view`] says, and with the key's signature bytes.
pub open spec fn is_signing<K: SigningKey>(
    key: &K,
    template: SignatureView,
    algorithm: Algorithm,
    headers: Seq<Field>,
    body: Seq<u8>,
    now: u64,
    outcome: Result<SignatureView, Error>,
) -> bool {
    if algorithm.key_type() != template.a.key_type() {
        outcome == Err::<SignatureView, Error>(Error::KeyAlgorithmMismatch)
    } else {
        exists|digest: Seq<u8>|
            {
                &&& #[trigger] key_hashes(key, hashed_body(body, template.cb, template.l), digest)
                &&& is_signed(
                    key,
                    unsigned_view(
                        template,
                        algorithm,
                        digest,
                        hashed_body(body, template.cb, template.l).len(),
                        now,
                    ),
                    headers,
                    outcome,
                )
            }
    }
}

/// The body hash of a signature is the digest that the key gave: what
/// signing gives, if it gives a signature, has as its body hash a digest
/// that the key gave for [`hashed_body`], and signatures from two digests
/// that differ have body hashes that differ.
pub proof fn lemma_body_hash_is_the_digest<K: SigningKey>(
    key: &K,
    template: SignatureView,
    algorithm: Algorithm,
    headers: Seq<Field>,
    body: Seq<u8>,
    now: u64,
    sig: SignatureView,
)
    requires
        is_signing(key, template, algorithm, headers, body, now, Ok(sig)),
    ensures
        key_hashes(key, hashed_body(body, template.cb, template.l), sig.bh),
        forall|one: Seq<u8>, other: Seq<u8>, hashed: nat|
            one != other ==> (#[trigger] unsigned_view(template, algorithm, one, hashed, now)).bh != (
            #[trigger] unsigned_view(template, algorithm, other, hashed, now)).bh,
{
    let hashed = hashed_body(body, template.cb, template.l);
    let ok = Ok::<SignatureView, Error>(sig);
    let digest = choose|digest: Seq<u8>|
        {
            &&& #[trigger] key_hashes(key, hashed, digest)
            &&& is_signed(
                key,
                unsigned_view(template, algorithm, digest, hashed.len(), now),
                headers,
                ok,
            )
        };
    assert(key_hashes(key, hashed, digest));
    assert(sig.bh == digest);
}

fn put(out: &mut Vec<u8>, t: &str)
    ensures
        final(out)@ == old(out)@ + ascii(t),
{
    out.extend_from_slice(t.as_bytes());
}

fn put_digits(out: &mut Vec<u8>, n: u64)
    ensures
        final(out)@ == old(out)@ + decimal_digits(n as nat),
    decreases n,
{
    let ghost start = out@;
    if n >= 10 {
        put_digits(out, n / 10);
    }
    out.push(48 + (n % 10) as u8);
    proof {
        if n >= 10 {
            assert(out@ =~= start + decimal_digits((n / 10) as nat).push((48 + n % 10) as u8));
        } else {
            assert(out@ =~= start + seq![(48 + n) as u8]);
        }
    }
}

fn put_number(out: &mut Vec<u8>, tag: &str, n: u64)
    ensures
        final(out)@ == with_number(old(out)@, ascii(tag), n),
{
    if n != 0 {
        put(out, tag);
        put_digits(out, n);
    }
}

fn put_joined(out: &mut Vec<u8>, items: &Vec<String>, sep: u8)
    ensures
        final(out)@ == old(out)@ + joined(name_bytes(items@), sep),
{
    let ghost start = out@;
    let ghost all = name_bytes(items@);
    let mut k: usize = 0;
    proof {
        assert(out@ =~= start + joined(all.take(0), sep));
    }
    while k < items.len()
        invariant
            k <= items@.len(),
            all == name_bytes(items@),
            out@ == start + joined(all.take(k as int), sep),
        decreases items@.len() - k,
    {
        let ghost before = joined(all.take(k as int), sep);
        proof {
            assert(all.take(k + 1).drop_last() =~= all.take(k as int));
            assert(all.take(k + 1).last() == encode_utf8(items@[k as int]@));
            if k == 0 {
                assert(all.take(1)[0] == all[0]);
                assert(before =~= Seq::<u8>::empty());
            }
        }
        if k > 0 {
            out.push(sep);
        }
        out.extend_from_slice(items[k].as_str().as_bytes());
        proof {
            if k > 0 {
                assert(out@ =~= start + (before.push(sep) + all[k as int]));
            } else {
                assert(out@ =~= start + all[0]);
            }
        }
        k += 1;
    }
    proof {
        assert(all.take(items@.len() as int) =~= all);
    }
}

fn algorithm_text(a: Algorithm) -> (r: &'static str)
    ensures
        ascii(r) == algorithm_name(a),
{
    match a {
        Algorithm::RsaSha256 => "rsa-sha256",
        Algorithm::RsaSha1 => "rsa-sha1",
        Algorithm::Ed25519Sha256 => "ed25519-sha256",
    }
}

fn canonicalization_text(c: Canonicalization) -> (r: &'static str)
    ensures
        ascii(r) == canonicalization_name(c),
{
    match c {
        Canonicalization::Relaxed => "relaxed",
        Canonicalization::Simple => "simple",
    }
}

fn hash_text(h: HashAlgorithm) -> (r: &'static str)
    ensures
        ascii(r) == hash_name(h),
{
    match h {
        HashAlgorithm::Sha256 => "sha256",
        HashAlgorithm::Sha1 => "sha1",
    }
}

fn copy_texts(items: &Vec<String>) -> (r: Vec<String>)
    ensures
        r@ == items@,
{
    let mut out: Vec<String> = Vec::new();
    let mut k: usize = 0;
    while k < items.len()
        invariant
            k <= items@.len(),
            out@ == items@.take(k as int),
        decreases items@.len() - k,
    {
        out.push(items[k].clone());
        proof {
            assert(out@ =~= items@.take(k + 1));
        }
        k += 1;
    }
    proof {
        assert(items@.take(items@.len() as int) =~= items@);
    }
    out
}

impl Signature {
    /// A copy of this signature.
    pub fn duplicate(&self) -> (r: Signature)
        ensures
            r@ == self@,
    {
        Signature {
            v: self.v,
            a: self.a,
            d: self.d.clone(),
            s: self.s.clone(),
            b: slice_to_vec(self.b.as_slice()),
            bh: slice_to_vec(self.bh.as_slice()),
            h: copy_texts(&self.h),
            z: copy_texts(&self.z),
            i: self.i.clone(),
            l: self.l,
            x: self.x,
            t: self.t,
            r: self.r,
            atps: match &self.atps {
                Some(domain) => Some(domain.clone()),
                None => None,
            },
            atpsh: self.atpsh,
            ch: self.ch,
            cb: self.cb,
        }
    }

    fn required(&self) -> (out: Vec<u8>)
        ensures
            out@ == required_tags(self@),
    {
        let mut out: Vec<u8> = Vec::new();
        put(&mut out, "v=1; a=");
        proof {
            assert(out@ =~= ascii("v=1; a="));
        }
        put(&mut out, algorithm_text(self.a));
        put(&mut out, "; c=");
        put(&mut out, canonicalization_text(self.ch));
        put(&mut out, "/");
        put(&mut out, canonicalization_text(self.cb));
        put(&mut out, "; d=");
        out.extend_from_slice(self.d.as_str().as_bytes());
        put(&mut out, "; s=");
        out.extend_from_slice(self.s.as_str().as_bytes());
        put(&mut out, "; h=");
        put_joined(&mut out, &self.h, COLON);
        out
    }

    fn put_numbers(&self, out: &mut Vec<u8>)
        ensures
            final(out)@ == with_numbers(old(out)@, self@),
    {
        if self.i.as_str().as_bytes().len() > 0 {
            put(out, "; i=");
            out.extend_from_slice(self.i.as_str().as_bytes());
        }
        put_number(out, "; l=", self.l);
        put_number(out, "; t=", self.t);
        put_number(out, "; x=", self.x);
    }

    fn put_options(&self, out: &mut Vec<u8>)
        ensures
            final(out)@ == with_options(old(out)@, self@),
    {
        if self.r {
            put(out, "; r=y");
        }
        match &self.atps {
            Some(domain) => {
                put(out, "; atps=");
                out.extend_from_slice(domain.as_str().as_bytes());
            },
            None => {},
        }
        match self.atpsh {
            Some(h) => {
                put(out, "; atpsh=");
                put(out, hash_text(h));
            },
            None => {},
        }
        if self.z.len() > 0 {
            put(out, "; z=");
            put_joined(out, &self.z, BAR);
        }
    }

    fn put_hashes(&self, out: &mut Vec<u8>)
        ensures
            final(out)@ == with_hashes(old(out)@, self@),
    {
        put(out, "; bh=");
        let bh = encode(self.bh.as_slice());
        out.extend_from_slice(bh.as_slice());
        put(out, "; b=");
        let b = encode(self.b.as_slice());
        out.extend_from_slice(b.as_slice());
    }

    /// The value of the DKIM-Signature header field that states this
    /// signature.
    pub fn to_header_value(&self) -> (out: Vec<u8>)
        ensures
            out@ == signature_text(self@),
    {
        let mut out = self.required();
        self.put_numbers(&mut out);
        self.put_options(&mut out);
        self.put_hashes(&mut out);
        out
    }

    /// The DKIM-Signature header field that states this signature, line
    /// terminator included.
    pub fn to_header(&self) -> (out: Vec<u8>)
        ensures
            out@ == signature_header(self@),
    {
        let mut out: Vec<u8> = Vec::new();
        put(&mut out, "DKIM-Signature: ");
        let value = self.to_header_value();
        out.extend_from_slice(value.as_slice());
        put(&mut out, "\r\n");
        proof {
            assert(out@ =~= signature_header(self@));
        }
        out
    }

    /// What is signed for this signature on a message with the header
    /// fields `headers`.
    pub fn signing_input(&self, headers: &[Header<'_>]) -> (out: Vec<u8>)
        ensures
            out@ == signing_input(headers_view(headers@), self@),
    {
        let mut out = canonicalize_signed_fields(headers, &self.h, self.ch);
        let mut blank = self.duplicate();
        blank.b = Vec::new();
        proof {
            assert(blank@ == (SignatureView { b: Seq::<u8>::empty(), ..self@ }));
        }
        let mut value: Vec<u8> = Vec::new();
        value.push(SP);
        let text = blank.to_header_value();
        value.extend_from_slice(text.as_slice());
        proof {
            assert(value@ =~= seq![SP] + signature_text(blank@));
        }
        let own = canonicalize_header("DKIM-Signature".as_bytes(), value.as_slice(), self.ch);
        out.extend_from_slice(own.as_slice());
        out
    }
}

/// What a signer hashes of a body.
pub fn body_to_hash(body: &[u8], cb: Canonicalization, limit: u64) -> (out: Vec<u8>)
    ensures
        out@ == hashed_body(body@, cb, limit),
{
    let mut canonical = canonicalize_body(body, cb);
    if limit != 0 && limit < canonical.len() as u64 {
        canonical.truncate(limit as usize);
    }
    canonical
}

impl<T: SigningKey> DkimSigner<T, Done> {
    /// The signature this signer makes at `now`, before its signature bytes
    /// are there.
    pub fn unsigned(&self, algorithm: Algorithm, body_hash: Vec<u8>, hashed: usize, now: u64) -> (r:
        Signature)
        ensures
            r@ == unsigned_view(self.template@, algorithm, body_hash@, hashed as nat, now),
    {
        let mut sig = self.template.duplicate();
        sig.a = algorithm;
        sig.bh = body_hash;
        sig.b = Vec::new();
        sig.l = if self.template.l == 0 {
            0
        } else {
            hashed as u64
        };
        sig.t = now;
        sig.x = if self.template.x == 0 {
            0
        } else if self.template.x > u64::MAX - now {
            u64::MAX
        } else {
            now + self.template.x
        };
        sig
    }

    /// Signs `message` at the time `now` with this signer's key, which is
    /// taken to sign with `algorithm`: see [`is_signing`].
    pub fn sign_as(&self, algorithm: Algorithm, message: &[u8], now: u64) -> (r: Result<
        Signature,
        Error,
    >)
        ensures
            is_signing(
                &self.key,
                self.template@,
                algorithm,
                message_headers(message@),
                message_body(message@),
                now,
                signing_view(r),
            ),
    {
        if algorithm.family() != self.template.a.family() {
            return Err(Error::KeyAlgorithmMismatch);
        }
        let parts = Message::parse(message);
        let hashed = body_to_hash(parts.body, self.template.cb, self.template.l);
        let body_hash = ask_hash(&self.key, hashed.as_slice());
        let ghost digest = body_hash@;
        let mut sig = self.unsigned(algorithm, body_hash, hashed.len(), now);
        let ghost unsigned = sig@;
        let input = sig.signing_input(parts.headers.as_slice());
        let r = match ask_signature(&self.key, input.as_slice()) {
            Ok(b) => {
                sig.b = b;
                Ok(sig)
            },
            Err(e) => Err(e),
        };
        proof {
            assert(key_hashes(&self.key, hashed@, digest));
            assert(unsigned == unsigned_view(
                self.template@,
                algorithm,
                digest,
                hashed@.len(),
                now,
            ));
            if r is Ok {
                assert(r->Ok_0@ == (SignatureView { b: r->Ok_0@.b, ..unsigned }));
            }
        }
        r
    }

    /// Signs `message` at the time `now`, with the algorithm that the key
    /// reports: see [`is_signing`].
    pub fn sign(&self, message: &[u8], now: u64) -> (r: Result<Signature, Error>)
        ensures
            exists|algorithm: Algorithm| #[trigger]
                key_reports(&self.key, algorithm) && is_signing(
                    &self.key,
                    self.template@,
                    algorithm,
                    message_headers(message@),
                    message_body(message@),
                    now,
                    signing_view(r),
                ),
    {
        let algorithm = ask_algorithm(&self.key);
        self.sign_as(algorithm, message, now)
    }
}

} // verus!
