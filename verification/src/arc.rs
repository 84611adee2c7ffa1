//! ARC: the chain of authentication results that relays hand on.
//!
//! Each relay adds one instance to a message: an ARC-Authentication-Results
//! field, an ARC-Message-Signature and an ARC-Seal, all three with the same
//! instance number. The instances of a message count up from 1.

use vstd::prelude::*;
use vstd::utf8::{encode_utf8, valid_utf8};
use crate::common::base64::{base64_decode, decode};
use crate::common::crypto::Algorithm;
use crate::common::verify::VerifySignature;
use crate::dkim::parse::{
    algorithm_of, ascii, first_byte, get, instance_of, is_text, number_of, parse_decimal,
    parse_instance, parse_tags, scan_byte, tag_list, tag_value, text, trim, trimmed, EQUALS,
    SEMICOLON,
};
use crate::common::crypto::{ask_verdict, verifier_judges, Verifier};
use crate::dkim::canonicalize::{canonical_header, canonicalize_header};
use crate::dkim::headers::{headers_view, names_match, same_name, Field, Header};
use crate::dkim::parse::{message_signature_of, parse_algorithm};
use crate::dkim::records::{key_record_of, DomainKey, DomainKeyView};
use crate::dkim::verify::{
    is_judgement, key_record, lookup_at, lookup_view, select_record, strip_signature_bytes,
    strip_terminator, unterminated, verify_signature, without_signature_bytes, Lookup, LookupView,
};
use crate::dkim::{Canonicalization, Signature, SignatureView, R_SVC_ALL, R_SVC_EMAIL};
use crate::{ArcOutput, ArcSet, DkimOutput, DkimResult, Error};

verus! {

/// The chain status a relay declares in its seal (`cv=`).
#[derive(Debug, Clone, Copy, PartialEq, Eq, Structural)]
pub enum ChainValidation {
    /// `none`: the relay found no chain.
    Neutral,
    /// `fail`: the relay found a broken chain.
    Fail,
    /// `pass`: the relay found a valid chain.
    Pass,
}

/// An ARC-Seal tag set.
#[derive(Debug, PartialEq, Eq, Clone)]
pub struct Seal {
    /// Instance number (`i=`).
    pub i: u32,
    /// Algorithm (`a=`).
    pub a: Algorithm,
    /// Signature bytes (`b=`).
    pub b: Vec<u8>,
    /// Signing domain (`d=`).
    pub d: String,
    /// Selector (`s=`).
    pub s: String,
    /// Creation (`t=`), seconds since the epoch; 0 stands for none.
    pub t: u64,
    /// The chain status the relay found (`cv=`).
    pub cv: ChainValidation,
}

/// A seal as plain values: each text by its bytes.
pub struct SealView {
    pub i: u32,
    pub a: Algorithm,
    pub b: Seq<u8>,
    pub d: Seq<u8>,
    pub s: Seq<u8>,
    pub t: u64,
    pub cv: ChainValidation,
}

impl View for Seal {
    type V = SealView;

    open spec fn view(&self) -> SealView {
        SealView {
            i: self.i,
            a: self.a,
            b: self.b@,
            d: encode_utf8(self.d@),
            s: encode_utf8(self.s@),
            t: self.t,
            cv: self.cv,
        }
    }
}

/// An ARC-Authentication-Results header field: its instance number. What
/// the relay found is free text and is not read.
#[derive(Debug, Clone, Copy, PartialEq, Eq, Structural)]
pub struct Results {
    /// Instance number (`i=`).
    pub i: u32,
}

/// What is known of one instance once its signature and its seal have been
/// judged.
#[derive(Debug, Clone, Copy, PartialEq, Eq, Structural)]
pub struct Link {
    /// The instance number.
    pub instance: u32,
    /// The chain status that the seal declares.
    pub cv: ChainValidation,
    /// The result for the ARC-Message-Signature.
    pub signature: DkimResult,
    /// The result for the ARC-Seal.
    pub seal: DkimResult,
}

/// The chain status that a `cv=` value names.
pub open spec fn chain_validation_of(v: Seq<u8>) -> Option<ChainValidation> {
    if v == ascii("none") {
        Some(ChainValidation::Neutral)
    } else if v == ascii("fail") {
        Some(ChainValidation::Fail)
    } else if v == ascii("pass") {
        Some(ChainValidation::Pass)
    } else {
        None
    }
}

/// What an ARC-Seal header value holds. The tags `i`, `a`, `b`, `cv`, `d`
/// and `s` must be there, and `i` must be an instance number.
pub open spec fn seal_of(input: Seq<u8>) -> Result<SealView, Error> {
    match tag_list(input) {
        None => Err(Error::SignatureParseError),
        Some(tags) => {
            let i = tag_value(tags, ascii("i"));
            let a = tag_value(tags, ascii("a"));
            let b = tag_value(tags, ascii("b"));
            let cv = tag_value(tags, ascii("cv"));
            let d = tag_value(tags, ascii("d"));
            let s = tag_value(tags, ascii("s"));
            let t = tag_value(tags, ascii("t"));
            if instance_of(i) is None || a is None || b is None || cv is None || d is None
                || s is None {
                Err(Error::SignatureParseError)
            } else if algorithm_of(a->0) is None {
                Err(Error::UnsupportedAlgorithm)
            } else if chain_validation_of(cv->0) is None || base64_decode(b->0) is None
                || !valid_utf8(d->0) || !valid_utf8(s->0) || number_of(t) is None {
                Err(Error::SignatureParseError)
            } else {
                Ok(
                    SealView {
                        i: instance_of(i)->0,
                        a: algorithm_of(a->0)->0,
                        b: base64_decode(b->0)->0,
                        d: d->0,
                        s: s->0,
                        t: number_of(t)->0,
                        cv: chain_validation_of(cv->0)->0,
                    },
                )
            }
        },
    }
}

/// The instance number of an ARC-Authentication-Results header value: its
/// first piece, up to the first semicolon, must be `i=` and that number.
pub open spec fn results_of(input: Seq<u8>) -> Result<Results, Error> {
    let e = first_byte(input, SEMICOLON, 0, input.len() as int);
    let q = first_byte(input, EQUALS, 0, e);
    if q < e && trimmed(input, 0, q) == ascii("i") {
        match instance_of(Some(trimmed(input, q + 1, e))) {
            Some(n) => Ok(Results { i: n }),
            None => Err(Error::SignatureParseError),
        }
    } else {
        Err(Error::SignatureParseError)
    }
}

/// The chain status that instance `k`, counted from 0, must declare for the
/// chain to be whole: none for the first, pass for every later one.
pub open spec fn expected_cv(k: int) -> ChainValidation {
    if k == 0 {
        ChainValidation::Neutral
    } else {
        ChainValidation::Pass
    }
}

/// Whether the instance numbers of `links` are 1, 2, 3, ... in this order.
pub open spec fn is_contiguous(links: Seq<Link>) -> bool {
    forall|k: int| 0 <= k < links.len() ==> (#[trigger] links[k]).instance == k + 1
}

/// Whether a link holds: its signature and its seal verified, and it
/// declares the chain status that its place in the chain asks for.
pub open spec fn link_holds(link: Link, k: int) -> bool {
    link.signature == DkimResult::Pass && link.seal == DkimResult::Pass && link.cv == expected_cv(k)
}

/// Whether every link of the chain holds.
pub open spec fn all_hold(links: Seq<Link>) -> bool {
    forall|k: int| 0 <= k < links.len() ==> link_holds(#[trigger] links[k], k)
}

/// The verdict on a chain.
///
/// No instance at all is `Neutral(NoArcSet)`. Instance numbers that are not
/// 1, 2, 3, ... are the permanent error `ArcInstanceSequenceInvalid`. Else
/// the chain passes if every link holds, and fails with `ArcBrokenChain` if
/// one does not.
pub open spec fn chain_verdict(links: Seq<Link>) -> DkimResult {
    if links.len() == 0 {
        DkimResult::Neutral(Error::NoArcSet)
    } else if !is_contiguous(links) {
        DkimResult::PermError(Error::ArcInstanceSequenceInvalid)
    } else if all_hold(links) {
        DkimResult::Pass
    } else {
        DkimResult::Fail(Error::ArcBrokenChain)
    }
}

/// A chain passes exactly if it has an instance, its instance numbers count
/// up from 1, every signature and every seal verified, and the declared
/// chain statuses are none, pass, pass, ...: one status out of sequence, and
/// a chain that is otherwise whole fails.
pub proof fn lemma_chain_passes(links: Seq<Link>)
    ensures
        chain_verdict(links) == DkimResult::Pass <==> links.len() > 0 && is_contiguous(links)
            && all_hold(links),
        forall|k: int|
            0 <= k < links.len() && is_contiguous(links) && (#[trigger] links[k]).cv
                != expected_cv(k) ==> chain_verdict(links) == DkimResult::Fail(
                Error::ArcBrokenChain,
            ),
{
    assert forall|k: int|
        0 <= k < links.len() && is_contiguous(links) && (#[trigger] links[k]).cv != expected_cv(
            k,
        ) implies chain_verdict(links) == DkimResult::Fail(Error::ArcBrokenChain) by {
        assert(!link_holds(links[k], k));
    }
}

/// The verdict on a chain.
pub fn chain_result(links: &[Link]) -> (r: DkimResult)
    ensures
        r == chain_verdict(links@),
{
    if links.len() == 0 {
        return DkimResult::Neutral(Error::NoArcSet);
    }
    let mut k: usize = 0;
    while k < links.len()
        invariant
            k <= links@.len(),
            forall|j: int| 0 <= j < k ==> (#[trigger] links@[j]).instance == j + 1,
        decreases links@.len() - k,
    {
        if links[k].instance as u64 != k as u64 + 1 {
            return DkimResult::PermError(Error::ArcInstanceSequenceInvalid);
        }
        k += 1;
    }
    let mut k: usize = 0;
    while k < links.len()
        invariant
            k <= links@.len(),
            is_contiguous(links@),
            forall|j: int| 0 <= j < k ==> link_holds(#[trigger] links@[j], j),
        decreases links@.len() - k,
    {
        let link = links[k];
        let wanted = if k == 0 {
            ChainValidation::Neutral
        } else {
            ChainValidation::Pass
        };
        if link.signature != DkimResult::Pass || link.seal != DkimResult::Pass || link.cv
            != wanted {
            proof {
                assert(!link_holds(links@[k as int], k as int));
            }
            return DkimResult::Fail(Error::ArcBrokenChain);
        }
        k += 1;
    }
    DkimResult::Pass
}

fn parse_chain_validation(v: &[u8]) -> (r: Option<ChainValidation>)
    ensures
        r == chain_validation_of(v@),
{
    if is_text(v, "none") {
        Some(ChainValidation::Neutral)
    } else if is_text(v, "fail") {
        Some(ChainValidation::Fail)
    } else if is_text(v, "pass") {
        Some(ChainValidation::Pass)
    } else {
        None
    }
}

impl Seal {
    /// Reads an ARC-Seal header value.
    pub fn parse(value: &[u8]) -> (r: Result<Seal, Error>)
        ensures
            match r {
                Ok(seal) => seal_of(value@) == Ok::<SealView, Error>(seal@),
                Err(e) => seal_of(value@) == Err::<SealView, Error>(e),
            },
    {
        let tags = match parse_tags(value) {
            Some(tags) => tags,
            None => {
                return Err(Error::SignatureParseError);
            },
        };
        let i = parse_instance(get(&tags, "i"));
        let a = get(&tags, "a");
        let b = get(&tags, "b");
        let cv = get(&tags, "cv");
        let d = get(&tags, "d");
        let s = get(&tags, "s");
        let t = get(&tags, "t");
        let (i, a, b, cv, d, s) = match (i, a, b, cv, d, s) {
            (Some(i), Some(a), Some(b), Some(cv), Some(d), Some(s)) => (i, a, b, cv, d, s),
            _ => {
                return Err(Error::SignatureParseError);
            },
        };
        let a = match parse_algorithm(a) {
            Some(a) => a,
            None => {
                return Err(Error::UnsupportedAlgorithm);
            },
        };
        let t = match t {
            None => Some(0),
            Some(t) => parse_decimal(t),
        };
        match (parse_chain_validation(cv), decode(b), text(d), text(s), t) {
            (Some(cv), Some(b), Some(d), Some(s), Some(t)) => Ok(Seal { i, a, b, d, s, t, cv }),
            _ => Err(Error::SignatureParseError),
        }
    }
}

impl Results {
    /// Reads the instance number of an ARC-Authentication-Results header
    /// value.
    pub fn parse(value: &[u8]) -> (r: Result<Results, Error>)
        ensures
            r == results_of(value@),
    {
        let e = scan_byte(value, SEMICOLON, 0, value.len());
        let q = scan_byte(value, EQUALS, 0, e);
        if q < e && is_text(trim(value, 0, q), "i") {
            match parse_instance(Some(trim(value, q + 1, e))) {
                Some(n) => Ok(Results { i: n }),
                None => Err(Error::SignatureParseError),
            }
        } else {
            Err(Error::SignatureParseError)
        }
    }
}

impl VerifySignature for Seal {
    fn signature(&self) -> (r: &[u8])
        ensures
            r@ == self.b@,
    {
        self.b.as_slice()
    }

    fn algorithm(&self) -> (r: Algorithm)
        ensures
            r == self.a,
    {
        self.a
    }

    fn selector(&self) -> (r: &str)
        ensures
            r@ == self.s@,
    {
        self.s.as_str()
    }

    fn domain(&self) -> (r: &str)
        ensures
            r@ == self.d@,
    {
        self.d.as_str()
    }
}

/// The index of the first `n` in `list` from `p` on.
pub open spec fn first_with_from(list: Seq<u32>, n: int, p: int) -> Option<int>
    decreases list.len() - p,
{
    if p < 0 || p >= list.len() {
        None
    } else if list[p] == n {
        Some(p)
    } else {
        first_with_from(list, n, p + 1)
    }
}

/// The index of the first `n` in `list`.
pub open spec fn first_with(list: Seq<u32>, n: int) -> Option<int> {
    first_with_from(list, n, 0)
}

/// Whether there is an instance `n` among the instance numbers of each of
/// the three kinds of header field.
pub open spec fn has_set(results: Seq<u32>, signatures: Seq<u32>, seals: Seq<u32>, n: int) -> bool {
    first_with(results, n) is Some && first_with(signatures, n) is Some && first_with(seals, n)
        is Some
}

/// Whether the instance numbers of the three kinds of header field make up
/// whole sets 1, 2, 3, ...: as many of each kind as of the others, and every
/// number up to that count among each.
pub open spec fn is_complete(results: Seq<u32>, signatures: Seq<u32>, seals: Seq<u32>) -> bool {
    &&& results.len() == seals.len()
    &&& signatures.len() == seals.len()
    &&& forall|n: int| 1 <= n <= seals.len() ==> #[trigger] has_set(results, signatures, seals, n)
}

/// Where the three header fields of one instance stand, each among the
/// fields of its kind.
#[derive(Debug, Clone, Copy, PartialEq, Eq, Structural)]
pub struct SetIndex {
    pub results: usize,
    pub signature: usize,
    pub seal: usize,
}

/// Whether `at` is where the fields of instance `n` stand.
pub open spec fn is_set_index(
    at: SetIndex,
    results: Seq<u32>,
    signatures: Seq<u32>,
    seals: Seq<u32>,
    n: int,
) -> bool {
    &&& first_with(results, n) == Some(at.results as int)
    &&& first_with(signatures, n) == Some(at.signature as int)
    &&& first_with(seals, n) == Some(at.seal as int)
    &&& at.results < results.len() && results[at.results as int] == n
    &&& at.signature < signatures.len() && signatures[at.signature as int] == n
    &&& at.seal < seals.len() && seals[at.seal as int] == n
}

fn find_instance(list: &[u32], n: usize) -> (r: Option<usize>)
    ensures
        match r {
            Some(j) => first_with(list@, n as int) == Some(j as int) && j < list@.len() && list@[j as int]
                == n,
            None => first_with(list@, n as int) is None,
        },
{
    let mut p: usize = 0;
    while p < list.len()
        invariant
            p <= list@.len(),
            first_with_from(list@, n as int, p as int) == first_with(list@, n as int),
        decreases list@.len() - p,
    {
        if list[p] as u64 == n as u64 {
            return Some(p);
        }
        p += 1;
    }
    None
}

/// Brings the header fields of a chain into sets, from the instance numbers
/// of the fields of each kind: for each instance 1, 2, 3, ... where its
/// three fields stand, or `None` if the fields do not make up whole sets.
pub fn order_instances(results: &[u32], signatures: &[u32], seals: &[u32]) -> (r: Option<
    Vec<SetIndex>,
>)
    ensures
        r is Some <==> is_complete(results@, signatures@, seals@),
        r is Some ==> r->0@.len() == seals@.len(),
        r is Some ==> forall|k: int|
            0 <= k < seals@.len() ==> is_set_index(
                #[trigger] r->0@[k],
                results@,
                signatures@,
                seals@,
                k + 1,
            ),
{
    if results.len() != seals.len() || signatures.len() != seals.len() {
        return None;
    }
    let mut out: Vec<SetIndex> = Vec::new();
    let mut k: usize = 0;
    while k < seals.len()
        invariant
            k <= seals@.len(),
            results@.len() == seals@.len(),
            signatures@.len() == seals@.len(),
            out@.len() == k,
            forall|n: int| 1 <= n <= k ==> #[trigger] has_set(results@, signatures@, seals@, n),
            forall|j: int|
                0 <= j < k ==> is_set_index(#[trigger] out@[j], results@, signatures@, seals@, j + 1),
        decreases seals@.len() - k,
    {
        let n = k + 1;
        match (find_instance(results, n), find_instance(signatures, n), find_instance(seals, n)) {
            (Some(r), Some(m), Some(s)) => {
                out.push(SetIndex { results: r, signature: m, seal: s });
            },
            _ => {
                proof {
                    assert(!has_set(results@, signatures@, seals@, n as int));
                }
                return None;
            },
        }
        k += 1;
    }
    Some(out)
}

/// The three header fields of one instance.
#[derive(Debug, Clone, Copy, PartialEq, Eq)]
pub struct SetHeaders<'a> {
    pub results: Header<'a>,
    pub signature: Header<'a>,
    pub seal: Header<'a>,
}

/// The three header fields of one instance as plain values.
pub struct SetFields {
    pub results: Field,
    pub signature: Field,
    pub seal: Field,
}

/// The fields that a vector of sets stands for.
pub open spec fn sets_view(v: Seq<SetHeaders<'_>>) -> Seq<SetFields> {
    Seq::new(
        v.len(),
        |k: int|
            SetFields {
                results: (v[k].results.name@, v[k].results.value@),
                signature: (v[k].signature.name@, v[k].signature.value@),
                seal: (v[k].seal.name@, v[k].seal.value@),
            },
    )
}

/// The relaxed canonical form of a header field.
pub open spec fn relaxed_field(field: Field) -> Seq<u8> {
    canonical_header(field.0, field.1, Canonicalization::Relaxed)
}

/// The relaxed canonical forms of all the fields of the first `n` sets, in
/// the order results, signature, seal.
pub open spec fn sealed_upto(sets: Seq<SetFields>, n: nat) -> Seq<u8>
    decreases n,
{
    if n == 0 {
        Seq::<u8>::empty()
    } else {
        sealed_upto(sets, (n - 1) as nat) + relaxed_field(sets[n - 1].results) + relaxed_field(
            sets[n - 1].signature,
        ) + relaxed_field(sets[n - 1].seal)
    }
}

/// What the seal of the set at index `k` must be a signature over: every
/// field of every earlier set, then the results and the signature of its own
/// set, then its own field without the value of `b=` and without its line
/// terminator, all in relaxed canonical form. So each seal binds the seals
/// before it and the chain status that it declares.
pub open spec fn seal_input(sets: Seq<SetFields>, k: int) -> Seq<u8> {
    sealed_upto(sets, k as nat) + relaxed_field(sets[k].results) + relaxed_field(sets[k].signature)
        + canonical_header(
        sets[k].seal.0,
        unterminated(without_signature_bytes(sets[k].seal.1)),
        Canonicalization::Relaxed,
    )
}

/// The key that the seal `seal` is to be verified with, or the result that
/// stands without any cryptography: first the lookup is judged, then the key
/// record, then the key's family and service.
pub open spec fn seal_key_for(seal: SealView, lookup: LookupView) -> Result<
    DomainKeyView,
    DkimResult,
> {
    match key_record(lookup) {
        Err(result) => Err(result),
        Ok(txt) => match key_record_of(txt) {
            Err(e) => Err(DkimResult::PermError(e)),
            Ok(key) => if key.k != seal.a.key_type() {
                Err(DkimResult::PermError(Error::AlgorithmMismatch))
            } else if key.f & (R_SVC_ALL | R_SVC_EMAIL) == 0 {
                Err(DkimResult::PermError(Error::ServiceNotAllowed))
            } else {
                Ok(key)
            },
        },
    }
}

/// The result for a seal whose key may be used, from the key's verdict on
/// the signature bytes.
pub open spec fn seal_conclusion(accepted: bool) -> DkimResult {
    if accepted {
        DkimResult::Pass
    } else {
        DkimResult::Fail(Error::BadSignature)
    }
}

/// Whether `result` is a judgement of the seal `seal`, which must be a
/// signature over `input`, from the lookup of its key: the result of
/// [`seal_key_for`] where it gives one, the verifier not being asked; else
/// the [`seal_conclusion`] from the verifier's verdict on the seal's
/// signature bytes over `input`.
pub open spec fn is_seal_judgement<V: Verifier>(
    verifier: &V,
    result: DkimResult,
    seal: SealView,
    input: Seq<u8>,
    lookup: LookupView,
) -> bool {
    match seal_key_for(seal, lookup) {
        Err(r) => result == r,
        Ok(key) => exists|accepted: bool|
            #![trigger seal_conclusion(accepted)]
            verifier_judges(verifier, seal.a, key.p, input, seal.b, accepted) && result
                == seal_conclusion(accepted),
    }
}

fn put_relaxed(out: &mut Vec<u8>, header: &Header<'_>)
    ensures
        final(out)@ == old(out)@ + relaxed_field((header.name@, header.value@)),
{
    let field = canonicalize_header(header.name, header.value, Canonicalization::Relaxed);
    out.extend_from_slice(field.as_slice());
}

/// What the seal of the set at index `k` must be a signature over.
pub fn seal_input_of(sets: &[SetHeaders<'_>], k: usize) -> (out: Vec<u8>)
    requires
        k < sets@.len(),
    ensures
        out@ == seal_input(sets_view(sets@), k as int),
{
    let ghost fields = sets_view(sets@);
    let mut out: Vec<u8> = Vec::new();
    let mut j: usize = 0;
    while j < k
        invariant
            j <= k < sets@.len(),
            fields == sets_view(sets@),
            out@ == sealed_upto(fields, j as nat),
        decreases k - j,
    {
        put_relaxed(&mut out, &sets[j].results);
        put_relaxed(&mut out, &sets[j].signature);
        put_relaxed(&mut out, &sets[j].seal);
        j += 1;
    }
    put_relaxed(&mut out, &sets[k].results);
    put_relaxed(&mut out, &sets[k].signature);
    let mut value = strip_signature_bytes(sets[k].seal.value);
    strip_terminator(&mut value);
    let own = canonicalize_header(sets[k].seal.name, value.as_slice(), Canonicalization::Relaxed);
    out.extend_from_slice(own.as_slice());
    out
}

/// The name at which the key of a seal is published.
pub open spec fn seal_key_query_name(seal: SealView) -> Seq<u8> {
    seal.s + ascii("._domainkey.") + seal.d
}

impl Seal {
    /// The name at which the key of this seal is published.
    pub fn key_query_name(&self) -> (out: Vec<u8>)
        ensures
            out@ == seal_key_query_name(self@),
    {
        let mut out: Vec<u8> = Vec::new();
        out.extend_from_slice(self.s.as_str().as_bytes());
        out.extend_from_slice("._domainkey.".as_bytes());
        out.extend_from_slice(self.d.as_str().as_bytes());
        proof {
            assert(out@ =~= seal_key_query_name(self@));
        }
        out
    }

    /// The key that this seal is to be verified with, or the result that
    /// stands without any cryptography.
    pub fn key_for(&self, lookup: &Lookup) -> (r: Result<DomainKey, DkimResult>)
        ensures
            match r {
                Ok(key) => seal_key_for(self@, lookup_view(*lookup)) == Ok::<
                    DomainKeyView,
                    DkimResult,
                >(key@),
                Err(result) => seal_key_for(self@, lookup_view(*lookup)) == Err::<
                    DomainKeyView,
                    DkimResult,
                >(result),
            },
    {
        let txt = match select_record(lookup) {
            Ok(txt) => txt,
            Err(result) => {
                return Err(result);
            },
        };
        let key = match DomainKey::parse(txt) {
            Ok(key) => key,
            Err(e) => {
                return Err(DkimResult::PermError(e));
            },
        };
        if key.k != self.a.family() {
            Err(DkimResult::PermError(Error::AlgorithmMismatch))
        } else if !key.has_flag(R_SVC_ALL | R_SVC_EMAIL) {
            Err(DkimResult::PermError(Error::ServiceNotAllowed))
        } else {
            Ok(key)
        }
    }
}

/// Judges the seal of the set at index `k`.
pub fn verify_seal<V: Verifier>(
    verifier: &V,
    sets: &[SetHeaders<'_>],
    k: usize,
    seal: &Seal,
    lookup: &Lookup,
) -> (r: DkimResult)
    requires
        k < sets@.len(),
    ensures
        is_seal_judgement(
            verifier,
            r,
            seal@,
            seal_input(sets_view(sets@), k as int),
            lookup_view(*lookup),
        ),
{
    match seal.key_for(lookup) {
        Err(result) => result,
        Ok(key) => {
            let input = seal_input_of(sets, k);
            let accepted = ask_verdict(
                verifier,
                seal.a,
                key.p.as_slice(),
                input.as_slice(),
                seal.b.as_slice(),
            );
            let result = if accepted {
                DkimResult::Pass
            } else {
                DkimResult::Fail(Error::BadSignature)
            };
            proof {
                assert(result == seal_conclusion(accepted));
            }
            result
        },
    }
}

/// The ARC header fields of a message, each kind top to bottom, each field
/// with what reading it gave.
#[derive(Debug, PartialEq, Eq)]
pub struct ArcFields<'a> {
    /// The ARC-Authentication-Results fields.
    pub results: Vec<(Header<'a>, Results)>,
    /// The ARC-Message-Signature fields, each with its instance number.
    pub signatures: Vec<(Header<'a>, u32, Signature)>,
    /// The ARC-Seal fields.
    pub seals: Vec<(Header<'a>, Seal)>,
}

/// The ARC header fields of a message as plain values.
pub struct ArcFieldsView {
    pub results: Seq<(Field, Results)>,
    pub signatures: Seq<(Field, u32, SignatureView)>,
    pub seals: Seq<(Field, SealView)>,
}

impl<'a> View for ArcFields<'a> {
    type V = ArcFieldsView;

    open spec fn view(&self) -> ArcFieldsView {
        ArcFieldsView {
            results: Seq::new(
                self.results@.len(),
                |k: int|
                    ((self.results@[k].0.name@, self.results@[k].0.value@), self.results@[k].1),
            ),
            signatures: Seq::new(
                self.signatures@.len(),
                |k: int|
                    (
                        (self.signatures@[k].0.name@, self.signatures@[k].0.value@),
                        self.signatures@[k].1,
                        self.signatures@[k].2@,
                    ),
            ),
            seals: Seq::new(
                self.seals@.len(),
                |k: int| ((self.seals@[k].0.name@, self.seals@[k].0.value@), self.seals@[k].1@),
            ),
        }
    }
}

/// The ARC header fields among `headers`, or the error of the first that
/// cannot be read.
pub open spec fn arc_fields_of(headers: Seq<Field>) -> Result<ArcFieldsView, Error>
    decreases headers.len(),
{
    if headers.len() == 0 {
        Ok(
            ArcFieldsView {
                results: Seq::<(Field, Results)>::empty(),
                signatures: Seq::<(Field, u32, SignatureView)>::empty(),
                seals: Seq::<(Field, SealView)>::empty(),
            },
        )
    } else {
        match arc_fields_of(headers.drop_last()) {
            Err(e) => Err(e),
            Ok(before) => with_field(before, headers.last()),
        }
    }
}

/// `before` with what reading `field` gives, if it is an ARC header field.
pub open spec fn with_field(before: ArcFieldsView, field: Field) -> Result<ArcFieldsView, Error> {
    if same_name(field.0, ascii("ARC-Authentication-Results")) {
        match results_of(field.1) {
            Ok(r) => Ok(ArcFieldsView { results: before.results.push((field, r)), ..before }),
            Err(e) => Err(e),
        }
    } else if same_name(field.0, ascii("ARC-Message-Signature")) {
        match message_signature_of(field.1) {
            Ok((n, sig)) => Ok(
                ArcFieldsView { signatures: before.signatures.push((field, n, sig)), ..before },
            ),
            Err(e) => Err(e),
        }
    } else if same_name(field.0, ascii("ARC-Seal")) {
        match seal_of(field.1) {
            Ok(seal) => Ok(ArcFieldsView { seals: before.seals.push((field, seal)), ..before }),
            Err(e) => Err(e),
        }
    } else {
        Ok(before)
    }
}

proof fn lemma_arc_error_stays(headers: Seq<Field>, n: int)
    requires
        0 <= n <= headers.len(),
        arc_fields_of(headers.take(n)) is Err,
    ensures
        arc_fields_of(headers) == arc_fields_of(headers.take(n)),
    decreases headers.len() - n,
{
    if n < headers.len() {
        assert(headers.take(n + 1).drop_last() =~= headers.take(n));
        lemma_arc_error_stays(headers, n + 1);
    } else {
        assert(headers.take(n) =~= headers);
    }
}

impl<'a> ArcFields<'a> {
    /// No field at all.
    pub fn new() -> (r: Self)
        ensures
            arc_fields_of(Seq::<Field>::empty()) == Ok::<ArcFieldsView, Error>(r@),
    {
        let r = ArcFields { results: Vec::new(), signatures: Vec::new(), seals: Vec::new() };
        proof {
            assert(r@.results =~= Seq::<(Field, Results)>::empty());
            assert(r@.signatures =~= Seq::<(Field, u32, SignatureView)>::empty());
            assert(r@.seals =~= Seq::<(Field, SealView)>::empty());
        }
        r
    }

    fn with_results(self, header: Header<'a>, results: Results) -> (r: Self)
        ensures
            r@ == (ArcFieldsView {
                results: self@.results.push(((header.name@, header.value@), results)),
                ..self@
            }),
    {
        let ghost before = self@;
        let mut fields = self;
        fields.results.push((header, results));
        proof {
            assert(fields@.results =~= before.results.push(
                ((header.name@, header.value@), results),
            ));
            assert(fields@.signatures =~= before.signatures);
            assert(fields@.seals =~= before.seals);
        }
        fields
    }

    fn with_signature(self, header: Header<'a>, n: u32, signature: Signature) -> (r: Self)
        ensures
            r@ == (ArcFieldsView {
                signatures: self@.signatures.push(((header.name@, header.value@), n, signature@)),
                ..self@
            }),
    {
        let ghost before = self@;
        let ghost view = signature@;
        let mut fields = self;
        fields.signatures.push((header, n, signature));
        proof {
            assert(fields@.signatures =~= before.signatures.push(
                ((header.name@, header.value@), n, view),
            ));
            assert(fields@.results =~= before.results);
            assert(fields@.seals =~= before.seals);
        }
        fields
    }

    fn with_seal(self, header: Header<'a>, seal: Seal) -> (r: Self)
        ensures
            r@ == (ArcFieldsView {
                seals: self@.seals.push(((header.name@, header.value@), seal@)),
                ..self@
            }),
    {
        let ghost before = self@;
        let ghost view = seal@;
        let mut fields = self;
        fields.seals.push((header, seal));
        proof {
            assert(fields@.seals =~= before.seals.push(((header.name@, header.value@), view)));
            assert(fields@.results =~= before.results);
            assert(fields@.signatures =~= before.signatures);
        }
        fields
    }

    /// These fields with what reading `header` gives, if it is an ARC
    /// header field.
    pub fn with_header(self, header: Header<'a>) -> (r: Result<Self, Error>)
        ensures
            match r {
                Ok(fields) => with_field(self@, (header.name@, header.value@)) == Ok::<
                    ArcFieldsView,
                    Error,
                >(fields@),
                Err(e) => with_field(self@, (header.name@, header.value@)) == Err::<
                    ArcFieldsView,
                    Error,
                >(e),
            },
    {
        if names_match(header.name, "ARC-Authentication-Results".as_bytes()) {
            match Results::parse(header.value) {
                Ok(results) => Ok(self.with_results(header, results)),
                Err(e) => Err(e),
            }
        } else if names_match(header.name, "ARC-Message-Signature".as_bytes()) {
            match Signature::parse_arc(header.value) {
                Ok((n, signature)) => Ok(self.with_signature(header, n, signature)),
                Err(e) => Err(e),
            }
        } else if names_match(header.name, "ARC-Seal".as_bytes()) {
            match Seal::parse(header.value) {
                Ok(seal) => Ok(self.with_seal(header, seal)),
                Err(e) => Err(e),
            }
        } else {
            Ok(self)
        }
    }
}

proof fn lemma_arc_fields_next(headers: Seq<Field>, n: int)
    requires
        0 <= n < headers.len(),
    ensures
        arc_fields_of(headers.take(n + 1)) == match arc_fields_of(headers.take(n)) {
            Err(e) => Err(e),
            Ok(before) => with_field(before, headers[n]),
        },
{
    assert(headers.take(n + 1).drop_last() =~= headers.take(n));
    assert(headers.take(n + 1).last() == headers[n]);
}

/// The ARC header fields among `headers`, or the error of the first that
/// cannot be read.
pub fn find_arc<'a>(headers: &[Header<'a>]) -> (r: Result<ArcFields<'a>, Error>)
    ensures
        match r {
            Ok(fields) => arc_fields_of(headers_view(headers@)) == Ok::<ArcFieldsView, Error>(
                fields@,
            ),
            Err(e) => arc_fields_of(headers_view(headers@)) == Err::<ArcFieldsView, Error>(e),
        },
{
    let ghost all = headers_view(headers@);
    let mut fields = ArcFields::new();
    let mut i: usize = 0;
    proof {
        assert(all.take(0) =~= Seq::<Field>::empty());
    }
    while i < headers.len()
        invariant
            i <= headers@.len(),
            all == headers_view(headers@),
            arc_fields_of(all.take(i as int)) == Ok::<ArcFieldsView, Error>(fields@),
        decreases headers@.len() - i,
    {
        proof {
            lemma_arc_fields_next(all, i as int);
        }
        match fields.with_header(headers[i]) {
            Ok(next) => {
                fields = next;
            },
            Err(e) => {
                proof {
                    lemma_arc_error_stays(all, i + 1);
                }
                return Err(e);
            },
        }
        i += 1;
    }
    proof {
        assert(all.take(headers@.len() as int) =~= all);
    }
    Ok(fields)
}

/// The instance numbers of the results fields.
pub open spec fn results_instances(fields: ArcFieldsView) -> Seq<u32> {
    Seq::new(fields.results.len(), |k: int| fields.results[k].1.i)
}

/// The instance numbers of the signature fields.
pub open spec fn signature_instances(fields: ArcFieldsView) -> Seq<u32> {
    Seq::new(fields.signatures.len(), |k: int| fields.signatures[k].1)
}

/// The instance numbers of the seal fields.
pub open spec fn seal_instances(fields: ArcFieldsView) -> Seq<u32> {
    Seq::new(fields.seals.len(), |k: int| fields.seals[k].1.i)
}

/// Whether the ARC header fields make up whole sets 1, 2, 3, ...
pub open spec fn has_whole_sets(fields: ArcFieldsView) -> bool {
    is_complete(results_instances(fields), signature_instances(fields), seal_instances(fields))
}

impl<'a> ArcFields<'a> {
    /// For each instance 1, 2, 3, ... where its three fields stand, or
    /// `None` if the fields do not make up whole sets.
    pub fn order(&self) -> (r: Option<Vec<SetIndex>>)
        ensures
            r is Some <==> has_whole_sets(self@),
            r is Some ==> r->0@.len() == self.seals@.len(),
            r is Some ==> forall|k: int|
                0 <= k < self.seals@.len() ==> is_set_index(
                    #[trigger] r->0@[k],
                    results_instances(self@),
                    signature_instances(self@),
                    seal_instances(self@),
                    k + 1,
                ),
    {
        let mut results: Vec<u32> = Vec::new();
        let mut k: usize = 0;
        while k < self.results.len()
            invariant
                k <= self.results@.len(),
                results@ == results_instances(self@).take(k as int),
            decreases self.results@.len() - k,
        {
            results.push(self.results[k].1.i);
            proof {
                assert(results@ =~= results_instances(self@).take(k + 1));
            }
            k += 1;
        }
        let mut signatures: Vec<u32> = Vec::new();
        let mut k: usize = 0;
        while k < self.signatures.len()
            invariant
                k <= self.signatures@.len(),
                signatures@ == signature_instances(self@).take(k as int),
            decreases self.signatures@.len() - k,
        {
            signatures.push(self.signatures[k].1);
            proof {
                assert(signatures@ =~= signature_instances(self@).take(k + 1));
            }
            k += 1;
        }
        let mut seals: Vec<u32> = Vec::new();
        let mut k: usize = 0;
        while k < self.seals.len()
            invariant
                k <= self.seals@.len(),
                seals@ == seal_instances(self@).take(k as int),
            decreases self.seals@.len() - k,
        {
            seals.push(self.seals[k].1.i);
            proof {
                assert(seals@ =~= seal_instances(self@).take(k + 1));
            }
            k += 1;
        }
        proof {
            assert(results@ =~= results_instances(self@));
            assert(signatures@ =~= signature_instances(self@));
            assert(seals@ =~= seal_instances(self@));
        }
        order_instances(results.as_slice(), signatures.as_slice(), seals.as_slice())
    }
}

/// The three header fields of instance `n`: of each kind the first field
/// with that instance number.
pub open spec fn set_of(fields: ArcFieldsView, n: int) -> SetFields {
    SetFields {
        results: fields.results[first_with(results_instances(fields), n)->0].0,
        signature: fields.signatures[first_with(signature_instances(fields), n)->0].0,
        seal: fields.seals[first_with(seal_instances(fields), n)->0].0,
    }
}

/// The header fields of the chain, set by set, from instance 1 on.
pub open spec fn chain_sets(fields: ArcFieldsView) -> Seq<SetFields> {
    Seq::new(fields.seals.len(), |k: int| set_of(fields, k + 1))
}

/// Whether `link` is what judging the instance `set`, the one at index `k`
/// of the chain whose header fields are `sets`, gave: it carries the set's
/// number and declared chain status, the result of a judgement of the set's
/// signature as a DKIM signature, and the result of a judgement of its seal
/// over [`seal_input`].
pub open spec fn is_link_of<V: Verifier>(
    verifier: &V,
    link: Link,
    set: ArcSet<'_>,
    k: int,
    sets: Seq<SetFields>,
    headers: Seq<Field>,
    body: Seq<u8>,
    signature_lookup: LookupView,
    seal_lookup: LookupView,
    now: u64,
) -> bool {
    &&& link.instance == k + 1
    &&& set.seal.i == k + 1
    &&& set.results.i == k + 1
    &&& link.cv == set.seal.cv
    &&& exists|out: DkimOutput<'_>|
        link.signature == out.result && #[trigger] is_judgement(
            verifier,
            out,
            set.signature,
            headers,
            sets[k].signature,
            body,
            signature_lookup,
            now,
        )
    &&& is_seal_judgement(verifier, link.seal, set.seal@, seal_input(sets, k), seal_lookup)
}

/// Whether `set` holds what was read of instance `n`: of each kind the
/// values of the first field with that instance number.
pub open spec fn is_set_of(set: ArcSet<'_>, fields: ArcFieldsView, n: int) -> bool {
    &&& *set.results == fields.results[first_with(results_instances(fields), n)->0].1
    &&& set.signature@ == fields.signatures[first_with(signature_instances(fields), n)->0].2
    &&& set.seal@ == fields.seals[first_with(seal_instances(fields), n)->0].1
}

/// Whether `order` says where the fields of each instance stand.
pub open spec fn is_order_of(order: Seq<SetIndex>, fields: ArcFieldsView) -> bool {
    &&& order.len() == fields.seals.len()
    &&& forall|j: int|
        0 <= j < order.len() ==> is_set_index(
            #[trigger] order[j],
            results_instances(fields),
            signature_instances(fields),
            seal_instances(fields),
            j + 1,
        )
}

fn set_headers<'a>(fields: &ArcFields<'a>, order: &Vec<SetIndex>) -> (sets: Vec<SetHeaders<'a>>)
    requires
        is_order_of(order@, fields@),
    ensures
        sets@.len() == order@.len(),
        sets_view(sets@) == chain_sets(fields@),
{
    let ghost view = fields@;
    let ghost all = chain_sets(view);
    let n = order.len();
    let mut sets: Vec<SetHeaders<'a>> = Vec::new();
    let mut k: usize = 0;
    while k < n
        invariant
            k <= n,
            n == order@.len(),
            view == fields@,
            all == chain_sets(view),
            is_order_of(order@, view),
            sets@.len() == k,
            forall|j: int| 0 <= j < k ==> #[trigger] sets_view(sets@)[j] == all[j],
        decreases n - k,
    {
        let at = order[k];
        proof {
            assert(is_set_index(
                order@[k as int],
                results_instances(view),
                signature_instances(view),
                seal_instances(view),
                k + 1,
            ));
        }
        let ghost before = sets_view(sets@);
        sets.push(
            SetHeaders {
                results: fields.results[at.results].0,
                signature: fields.signatures[at.signature].0,
                seal: fields.seals[at.seal].0,
            },
        );
        proof {
            assert(sets_view(sets@)[k as int] == set_of(view, k + 1));
            assert forall|j: int| 0 <= j < k + 1 implies #[trigger] sets_view(sets@)[j]
                == all[j] by {
                if j < k {
                    assert(sets_view(sets@)[j] == before[j]);
                }
            }
        }
        k += 1;
    }
    proof {
        assert(sets_view(sets@) =~= all);
    }
    sets
}

fn set_at<'x>(fields: &'x ArcFields<'_>, at: SetIndex, k: usize) -> (set: ArcSet<'x>)
    requires
        is_set_index(
            at,
            results_instances(fields@),
            signature_instances(fields@),
            seal_instances(fields@),
            k + 1,
        ),
    ensures
        is_set_of(set, fields@, k + 1),
        set.seal.i == k + 1,
        set.results.i == k + 1,
{
    let set = ArcSet {
        signature: &fields.signatures[at.signature].2,
        seal: &fields.seals[at.seal].1,
        results: &fields.results[at.results].1,
    };
    proof {
        let view = fields@;
        assert(seal_instances(view)[at.seal as int] == set.seal.i);
        assert(results_instances(view)[at.results as int] == set.results.i);
        assert(view.seals[at.seal as int].1 == set.seal@);
        assert(view.signatures[at.signature as int].2 == set.signature@);
        assert(view.results[at.results as int].1 == *set.results);
    }
    set
}

fn judge_set<'x, V: Verifier>(
    verifier: &V,
    headers: &[Header<'_>],
    body: &[u8],
    sets: &[SetHeaders<'_>],
    set: &ArcSet<'x>,
    k: usize,
    signature_lookup: &Lookup,
    seal_lookup: &Lookup,
    now: u64,
) -> (link: Link)
    requires
        k < sets@.len(),
        k < u32::MAX,
        set.seal.i == k + 1,
        set.results.i == k + 1,
    ensures
        is_link_of(
            verifier,
            link,
            *set,
            k as int,
            sets_view(sets@),
            headers_view(headers@),
            body@,
            lookup_view(*signature_lookup),
            lookup_view(*seal_lookup),
            now,
        ),
{
    let own = &sets[k].signature;
    let judged = verify_signature(verifier, headers, body, own, set.signature, signature_lookup, now);
    let sealed = verify_seal(verifier, sets, k, set.seal, seal_lookup);
    let link = Link {
        instance: (k + 1) as u32,
        cv: set.seal.cv,
        signature: judged.result,
        seal: sealed,
    };
    proof {
        assert(is_judgement(
            verifier,
            judged,
            set.signature,
            headers_view(headers@),
            sets_view(sets@)[k as int].signature,
            body@,
            lookup_view(*signature_lookup),
            now,
        ));
    }
    link
}

/// The verdict on the ARC chain of a message, with what is known of each
/// instance.
///
/// Each instance's signature is judged like a DKIM signature, from the
/// lookup at the instance's index among `signature_lookups`, and its seal
/// from the one among `seal_lookups`. Header fields that do not make up
/// whole sets 1, 2, 3, ... are the permanent error
/// `ArcInstanceSequenceInvalid`; else the verdict is [`chain_verdict`] of
/// the links, and the output holds for each instance what was read of it.
pub fn verify_chain<'x, V: Verifier>(
    verifier: &V,
    headers: &[Header<'_>],
    body: &[u8],
    fields: &'x ArcFields<'_>,
    signature_lookups: &Vec<Lookup>,
    seal_lookups: &Vec<Lookup>,
    now: u64,
) -> (r: (ArcOutput<'x>, Vec<Link>))
    ensures
        !has_whole_sets(fields@) ==> r.0.result == DkimResult::PermError(
            Error::ArcInstanceSequenceInvalid,
        ) && r.0.set@.len() == 0 && r.1@.len() == 0,
        has_whole_sets(fields@) ==> r.0.result == chain_verdict(r.1@) && r.0.set@.len()
            == fields.seals@.len() && r.1@.len() == fields.seals@.len(),
        has_whole_sets(fields@) ==> forall|k: int|
            0 <= k < r.0.set@.len() ==> is_set_of(#[trigger] r.0.set@[k], fields@, k + 1),
        has_whole_sets(fields@) ==> forall|k: int|
            0 <= k < r.1@.len() ==> is_link_of(
                verifier,
                #[trigger] r.1@[k],
                r.0.set@[k],
                k,
                chain_sets(fields@),
                headers_view(headers@),
                body@,
                lookup_at(signature_lookups@, k),
                lookup_at(seal_lookups@, k),
                now,
            ),
{
    let order = match fields.order() {
        Some(order) => order,
        None => {
            return (
                ArcOutput {
                    result: DkimResult::PermError(Error::ArcInstanceSequenceInvalid),
                    set: Vec::new(),
                },
                Vec::new(),
            );
        },
    };
    let ghost view = fields@;
    let ghost all = chain_sets(view);
    let n = order.len();
    let sets = set_headers(fields, &order);
    let unanswered: Lookup = Err(crate::DnsFailure::Timeout);
    let mut links: Vec<Link> = Vec::new();
    let mut out: Vec<ArcSet<'x>> = Vec::new();
    let mut k: usize = 0;
    while k < n
        invariant
            k <= n,
            n == order@.len(),
            n == sets@.len(),
            view == fields@,
            all == chain_sets(view),
            sets_view(sets@) == all,
            is_order_of(order@, view),
            links@.len() == k,
            out@.len() == k,
            unanswered == Err::<Vec<Vec<u8>>, crate::DnsFailure>(crate::DnsFailure::Timeout),
            forall|j: int| 0 <= j < k ==> is_set_of(#[trigger] out@[j], view, j + 1),
            forall|j: int|
                0 <= j < k ==> is_link_of(
                    verifier,
                    #[trigger] links@[j],
                    out@[j],
                    j,
                    all,
                    headers_view(headers@),
                    body@,
                    lookup_at(signature_lookups@, j),
                    lookup_at(seal_lookups@, j),
                    now,
                ),
        decreases n - k,
    {
        proof {
            assert(is_set_index(
                order@[k as int],
                results_instances(view),
                signature_instances(view),
                seal_instances(view),
                k + 1,
            ));
        }
        let set = set_at(fields, order[k], k);
        let signature_lookup = if k < signature_lookups.len() {
            &signature_lookups[k]
        } else {
            &unanswered
        };
        let seal_lookup = if k < seal_lookups.len() {
            &seal_lookups[k]
        } else {
            &unanswered
        };
        let link = judge_set(
            verifier,
            headers,
            body,
            sets.as_slice(),
            &set,
            k,
            signature_lookup,
            seal_lookup,
            now,
        );
        links.push(link);
        out.push(set);
        k += 1;
    }
    let result = chain_result(links.as_slice());
    (ArcOutput { result, set: out }, links)
}

/// The verdict on the ARC chain of a message from what reading its ARC
/// header fields gave.
///
/// A field that could not be read is a permanent error with the parser's
/// reason, and nothing is judged. Else the verdict is that of
/// [`verify_chain`].
pub fn verify_arc<'x, V: Verifier>(
    verifier: &V,
    headers: &[Header<'_>],
    body: &[u8],
    found: &'x Result<ArcFields<'_>, Error>,
    signature_lookups: &Vec<Lookup>,
    seal_lookups: &Vec<Lookup>,
    now: u64,
) -> (r: (ArcOutput<'x>, Vec<Link>))
    ensures
        found is Err ==> r.0.result == DkimResult::PermError(found->Err_0) && r.0.set@.len() == 0
            && r.1@.len() == 0,
        found is Ok && !has_whole_sets(found->Ok_0@) ==> r.0.result == DkimResult::PermError(
            Error::ArcInstanceSequenceInvalid,
        ) && r.0.set@.len() == 0 && r.1@.len() == 0,
        found is Ok && has_whole_sets(found->Ok_0@) ==> r.0.result == chain_verdict(r.1@)
            && r.0.set@.len() == found->Ok_0.seals@.len() && r.1@.len() == found->Ok_0.seals@.len(),
        found is Ok && has_whole_sets(found->Ok_0@) ==> forall|k: int|
            0 <= k < r.0.set@.len() ==> is_set_of(#[trigger] r.0.set@[k], found->Ok_0@, k + 1),
        found is Ok && has_whole_sets(found->Ok_0@) ==> forall|k: int|
            0 <= k < r.1@.len() ==> is_link_of(
                verifier,
                #[trigger] r.1@[k],
                r.0.set@[k],
                k,
                chain_sets(found->Ok_0@),
                headers_view(headers@),
                body@,
                lookup_at(signature_lookups@, k),
                lookup_at(seal_lookups@, k),
                now,
            ),
{
    match found {
        Err(e) => (ArcOutput { result: DkimResult::PermError(*e), set: Vec::new() }, Vec::new()),
        Ok(fields) => verify_chain(
            verifier,
            headers,
            body,
            fields,
            signature_lookups,
            seal_lookups,
            now,
        ),
    }
}

} // verus!
