//! Configuring a signer, one required setting after the other.

use vstd::prelude::*;
use vstd::utf8::encode_utf8;
use crate::common::crypto::{ask_algorithm, key_reports, Algorithm, HashAlgorithm, SigningKey};
use crate::dkim::headers::name_bytes;
use crate::dkim::parse::{identity_within, is_identity_within};
use crate::Error;
use crate::dkim::{
    Canonicalization, DkimSigner, Done, NeedDomain, NeedHeaders, NeedSelector, Signature,
    SignatureView,
};

verus! {

/// The template a signer starts from: version 1, relaxed canonicalization
/// of headers and body, and nothing else set.
pub open spec fn fresh_template() -> SignatureView {
    SignatureView {
        v: 1,
        a: Algorithm::RsaSha256,
        d: Seq::<u8>::empty(),
        s: Seq::<u8>::empty(),
        b: Seq::<u8>::empty(),
        bh: Seq::<u8>::empty(),
        h: Seq::<Seq<u8>>::empty(),
        z: Seq::<Seq<u8>>::empty(),
        i: Seq::<u8>::empty(),
        l: 0,
        x: 0,
        t: 0,
        r: false,
        atps: None,
        atpsh: None,
        ch: Canonicalization::Relaxed,
        cb: Canonicalization::Relaxed,
    }
}

impl<T: SigningKey> DkimSigner<T, NeedDomain> {
    /// A signer for `key` with nothing configured yet. The template's
    /// algorithm is the one the key reports.
    pub fn from_key(key: T) -> (r: DkimSigner<T, NeedDomain>)
        ensures
            r.key == key,
            key_reports(&key, r.template.a),
            r.template@ == (SignatureView { a: r.template.a, ..fresh_template() }),
    {
        let a = ask_algorithm(&key);
        let template = Signature {
            v: 1,
            a,
            d: String::new(),
            s: String::new(),
            b: Vec::new(),
            bh: Vec::new(),
            h: Vec::new(),
            z: Vec::new(),
            i: String::new(),
            l: 0,
            x: 0,
            t: 0,
            r: false,
            atps: None,
            atpsh: None,
            ch: Canonicalization::Relaxed,
            cb: Canonicalization::Relaxed,
        };
        proof {
            assert(template@.h =~= fresh_template().h);
            assert(template@.z =~= fresh_template().z);
            assert(template@.d =~= fresh_template().d);
            assert(template@.s =~= fresh_template().s);
            assert(template@.i =~= fresh_template().i);
        }
        DkimSigner { _state: std::marker::PhantomData, key, template }
    }

    /// Sets the signing domain (`d=`).
    pub fn domain(self, domain: String) -> (r: DkimSigner<T, NeedSelector>)
        ensures
            r.key == self.key,
            r.template@ == (SignatureView { d: encode_utf8(domain@), ..self.template@ }),
    {
        let mut template = self.template;
        template.d = domain;
        DkimSigner { _state: std::marker::PhantomData, key: self.key, template }
    }
}

impl<T: SigningKey> DkimSigner<T, NeedSelector> {
    /// Sets the selector (`s=`).
    pub fn selector(self, selector: String) -> (r: DkimSigner<T, NeedHeaders>)
        ensures
            r.key == self.key,
            r.template@ == (SignatureView { s: encode_utf8(selector@), ..self.template@ }),
    {
        let mut template = self.template;
        template.s = selector;
        DkimSigner { _state: std::marker::PhantomData, key: self.key, template }
    }
}

impl<T: SigningKey> DkimSigner<T, NeedHeaders> {
    /// Sets the names of the header fields to sign, in signing order (`h=`).
    pub fn headers(self, headers: Vec<String>) -> (r: DkimSigner<T, Done>)
        ensures
            r.key == self.key,
            r.template@ == (SignatureView { h: name_bytes(headers@), ..self.template@ }),
    {
        let mut template = self.template;
        template.h = headers;
        DkimSigner { _state: std::marker::PhantomData, key: self.key, template }
    }
}

impl<T: SigningKey> DkimSigner<T, Done> {
    /// Sets the domain of an authorized third-party signer (`atps=`).
    pub fn atps(self, atps: String) -> (r: Self)
        ensures
            r.key == self.key,
            r.template@ == (SignatureView { atps: Some(encode_utf8(atps@)), ..self.template@ }),
    {
        let mut template = self.template;
        template.atps = Some(atps);
        DkimSigner { _state: std::marker::PhantomData, key: self.key, template }
    }

    /// Sets the hash function of the ATPS query name (`atpsh=`).
    pub fn atpsh(self, atpsh: HashAlgorithm) -> (r: Self)
        ensures
            r.key == self.key,
            r.template@ == (SignatureView { atpsh: Some(atpsh), ..self.template@ }),
    {
        let mut template = self.template;
        template.atpsh = Some(atpsh);
        DkimSigner { _state: std::marker::PhantomData, key: self.key, template }
    }

    /// Sets the agent or user identity (`i=`), which must lie within the
    /// signing domain; if it does not, the error is `IdentityMismatch`.
    pub fn agent_user_identifier(self, auid: String) -> (r: Result<Self, Error>)
        ensures
            r is Ok <==> identity_within(encode_utf8(auid@), self.template@.d),
            r is Ok ==> r->Ok_0.key == self.key && r->Ok_0.template@ == (SignatureView {
                i: encode_utf8(auid@),
                ..self.template@
            }),
            r is Err ==> r->Err_0 == Error::IdentityMismatch,
    {
        if !is_identity_within(auid.as_str().as_bytes(), self.template.d.as_str().as_bytes()) {
            return Err(Error::IdentityMismatch);
        }
        let mut template = self.template;
        template.i = auid;
        Ok(DkimSigner { _state: std::marker::PhantomData, key: self.key, template })
    }

    /// Sets for how many seconds after their creation signatures stay valid;
    /// 0 for ever.
    pub fn expiration(self, expiration: u64) -> (r: Self)
        ensures
            r.key == self.key,
            r.template@ == (SignatureView { x: expiration, ..self.template@ }),
    {
        let mut template = self.template;
        template.x = expiration;
        DkimSigner { _state: std::marker::PhantomData, key: self.key, template }
    }

    /// Sets how many bytes of the canonical body signatures cover at most;
    /// 0 for all of it.
    pub fn body_length(self, limit: u64) -> (r: Self)
        ensures
            r.key == self.key,
            r.template@ == (SignatureView { l: limit, ..self.template@ }),
    {
        let mut template = self.template;
        template.l = limit;
        DkimSigner { _state: std::marker::PhantomData, key: self.key, template }
    }

    /// Sets whether signatures ask for failure reports (`r=y`).
    pub fn reporting(self, reporting: bool) -> (r: Self)
        ensures
            r.key == self.key,
            r.template@ == (SignatureView { r: reporting, ..self.template@ }),
    {
        let mut template = self.template;
        template.r = reporting;
        DkimSigner { _state: std::marker::PhantomData, key: self.key, template }
    }

    /// Sets the canonicalization of the header fields.
    pub fn header_canonicalization(self, ch: Canonicalization) -> (r: Self)
        ensures
            r.key == self.key,
            r.template@ == (SignatureView { ch: ch, ..self.template@ }),
    {
        let mut template = self.template;
        template.ch = ch;
        DkimSigner { _state: std::marker::PhantomData, key: self.key, template }
    }

    /// Sets the canonicalization of the body.
    pub fn body_canonicalization(self, cb: Canonicalization) -> (r: Self)
        ensures
            r.key == self.key,
            r.template@ == (SignatureView { cb: cb, ..self.template@ }),
    {
        let mut template = self.template;
        template.cb = cb;
        DkimSigner { _state: std::marker::PhantomData, key: self.key, template }
    }
}

} // verus!
