//! The DNS records that DKIM reads: key records and ATPS records.

use vstd::prelude::*;
use vstd::utf8::{encode_utf8, valid_utf8};
use crate::common::base64::{base64_decode, decode};
use crate::common::crypto::{KeyType, R_HASH_SHA1, R_HASH_SHA256};
use crate::dkim::canonicalize::COLON;
use crate::dkim::parse::{
    ascii, decimal_u64, get, is_text, items, opt_view, parse_decimal, parse_tags, split_items,
    tag_list, tag_value, tags_view, text, utf8_if_some, Tag, TagView,
};
use crate::dkim::{
    Atps, DomainKeyReport, RR_ALL, RR_DNS, RR_EXPIRATION, RR_OTHER, RR_POLICY, RR_SIGNATURE,
    RR_UNKNOWN_TAG, RR_VERIFICATION, R_FLAG_MATCH_DOMAIN, R_FLAG_TESTING, R_SVC_ALL, R_SVC_EMAIL,
};
use crate::{Error, Version};

verus! {

/// A public key as its domain published it.
#[derive(Debug, PartialEq, Eq, Clone)]
pub struct DomainKey {
    /// The key itself, as the bytes that `p=` encodes.
    pub p: Vec<u8>,
    /// The key's family (`k=`).
    pub k: KeyType,
    /// What the key may be used with and for: a union of `R_HASH_`, `R_SVC_`
    /// and `R_FLAG_` bits (`h=`, `s=`, `t=`).
    pub f: u64,
    /// Where failure reports go, if the record asks for them.
    pub report: Option<DomainKeyReport>,
}

/// A report request as plain values.
pub struct ReportView {
    pub ra: Seq<u8>,
    pub rp: u8,
    pub rr: u8,
    pub rs: Option<Seq<u8>>,
}

/// A key record as plain values.
pub struct DomainKeyView {
    pub p: Seq<u8>,
    pub k: KeyType,
    pub f: u64,
    pub report: Option<ReportView>,
}

/// An ATPS record as plain values.
pub struct AtpsView {
    pub v: Version,
    pub d: Option<Seq<u8>>,
}

/// The bytes of an optional text.
pub open spec fn text_bytes(t: Option<String>) -> Option<Seq<u8>> {
    match t {
        Some(t) => Some(encode_utf8(t@)),
        None => None,
    }
}

impl View for DomainKeyReport {
    type V = ReportView;

    open spec fn view(&self) -> ReportView {
        ReportView { ra: encode_utf8(self.ra@), rp: self.rp, rr: self.rr, rs: text_bytes(self.rs) }
    }
}

impl View for DomainKey {
    type V = DomainKeyView;

    open spec fn view(&self) -> DomainKeyView {
        DomainKeyView {
            p: self.p@,
            k: self.k,
            f: self.f,
            report: match self.report {
                Some(report) => Some(report@),
                None => None,
            },
        }
    }
}

impl View for Atps {
    type V = AtpsView;

    open spec fn view(&self) -> AtpsView {
        AtpsView { v: self.v, d: text_bytes(self.d) }
    }
}

/// The lists of a key record whose items stand for bits.
#[derive(Debug, Clone, Copy, PartialEq, Eq, Structural)]
pub enum BitList {
    /// Acceptable hash functions (`h=`).
    Hashes,
    /// Services the key is for (`s=`).
    Services,
    /// Flags (`t=`).
    Flags,
}

/// The bit that `item` stands for in a list of kind `list`; 0 where the item
/// is not known.
pub open spec fn bit_of(list: BitList, item: Seq<u8>) -> u64 {
    match list {
        BitList::Hashes => if item == ascii("sha256") {
            R_HASH_SHA256
        } else if item == ascii("sha1") {
            R_HASH_SHA1
        } else {
            0
        },
        BitList::Services => if item == ascii("*") {
            R_SVC_ALL
        } else if item == ascii("email") {
            R_SVC_EMAIL
        } else {
            0
        },
        BitList::Flags => if item == ascii("y") {
            R_FLAG_TESTING
        } else if item == ascii("s") {
            R_FLAG_MATCH_DOMAIN
        } else {
            0
        },
    }
}

/// The union of the bits that `items` stand for.
pub open spec fn bits_of(list: BitList, items: Seq<Seq<u8>>) -> u64
    decreases items.len(),
{
    if items.len() == 0 {
        0
    } else {
        bits_of(list, items.drop_last()) | bit_of(list, items.last())
    }
}

/// The bits of a list of a key record; without the tag, every hash function,
/// every service and no flag.
pub open spec fn list_bits(list: BitList, value: Option<Seq<u8>>) -> u64 {
    match value {
        Some(v) => bits_of(list, items(v, COLON)),
        None => match list {
            BitList::Hashes => R_HASH_SHA1 | R_HASH_SHA256,
            BitList::Services => R_SVC_ALL,
            BitList::Flags => 0,
        },
    }
}

/// The kind of failure that an item of `rr=` stands for; 0 where the item is
/// not known.
pub open spec fn report_bit(item: Seq<u8>) -> u8 {
    if item == ascii("all") {
        RR_ALL
    } else if item == ascii("d") {
        RR_DNS
    } else if item == ascii("o") {
        RR_OTHER
    } else if item == ascii("p") {
        RR_POLICY
    } else if item == ascii("s") {
        RR_SIGNATURE
    } else if item == ascii("u") {
        RR_UNKNOWN_TAG
    } else if item == ascii("v") {
        RR_VERIFICATION
    } else if item == ascii("x") {
        RR_EXPIRATION
    } else {
        0
    }
}

/// The union of the kinds of failure that `items` stand for.
pub open spec fn report_bits(items: Seq<Seq<u8>>) -> u8
    decreases items.len(),
{
    if items.len() == 0 {
        0
    } else {
        report_bits(items.drop_last()) | report_bit(items.last())
    }
}

/// The share of failures to report: 100 without the tag, `None` where the
/// value is no number up to 100.
pub open spec fn percent_of(rp: Option<Seq<u8>>) -> Option<u8> {
    match rp {
        None => Some(100),
        Some(v) => match decimal_u64(v) {
            Some(n) => if n <= 100 {
                Some(n as u8)
            } else {
                None
            },
            None => None,
        },
    }
}

/// The key family that a `k=` value names; RSA without the tag.
pub open spec fn key_type_of(k: Option<Seq<u8>>) -> Option<KeyType> {
    match k {
        None => Some(KeyType::Rsa),
        Some(v) => if v == ascii("rsa") {
            Some(KeyType::Rsa)
        } else if v == ascii("ed25519") {
            Some(KeyType::Ed25519)
        } else {
            None
        },
    }
}

/// The report request among the tags of a key record: none without `ra=`,
/// `None` where one of its tags is malformed.
pub open spec fn report_of(tags: Seq<TagView>) -> Option<Option<ReportView>> {
    let ra = tag_value(tags, ascii("ra"));
    let rp = tag_value(tags, ascii("rp"));
    let rr = tag_value(tags, ascii("rr"));
    let rs = tag_value(tags, ascii("rs"));
    match ra {
        None => Some(None),
        Some(addr) => if !valid_utf8(addr) || !utf8_if_some(rs) || percent_of(rp) is None {
            None
        } else {
            Some(
                Some(
                    ReportView {
                        ra: addr,
                        rp: percent_of(rp)->0,
                        rr: match rr {
                            Some(list) => report_bits(items(list, COLON)),
                            None => RR_ALL,
                        },
                        rs: rs,
                    },
                ),
            )
        },
    }
}

/// What a key record holds.
///
/// A version, if given, must be `DKIM1`. A record without `p=`, or with an
/// empty one, is a revoked key.
pub open spec fn key_record_of(txt: Seq<u8>) -> Result<DomainKeyView, Error> {
    match tag_list(txt) {
        None => Err(Error::KeyRecordParseError),
        Some(tags) => {
            let v = tag_value(tags, ascii("v"));
            let k = tag_value(tags, ascii("k"));
            let p = tag_value(tags, ascii("p"));
            if v is Some && v->0 != ascii("DKIM1") {
                Err(Error::KeyRecordParseError)
            } else if key_type_of(k) is None {
                Err(Error::KeyRecordParseError)
            } else if p is None || p->0.len() == 0 {
                Err(Error::KeyRevoked)
            } else if base64_decode(p->0) is None || report_of(tags) is None {
                Err(Error::KeyRecordParseError)
            } else {
                Ok(
                    DomainKeyView {
                        p: base64_decode(p->0)->0,
                        k: key_type_of(k)->0,
                        f: list_bits(BitList::Hashes, tag_value(tags, ascii("h"))) | list_bits(
                            BitList::Services,
                            tag_value(tags, ascii("s")),
                        ) | list_bits(BitList::Flags, tag_value(tags, ascii("t"))),
                        report: report_of(tags)->0,
                    },
                )
            }
        },
    }
}

/// What an ATPS record holds. Its version must be `ATPS1`.
pub open spec fn atps_of(txt: Seq<u8>) -> Result<AtpsView, Error> {
    match tag_list(txt) {
        None => Err(Error::AtpsParseError),
        Some(tags) => {
            let v = tag_value(tags, ascii("v"));
            let d = tag_value(tags, ascii("d"));
            if v != Some(ascii("ATPS1")) || !utf8_if_some(d) {
                Err(Error::AtpsParseError)
            } else {
                Ok(AtpsView { v: Version::V1, d: d })
            }
        },
    }
}

fn item_bit(list: BitList, item: &[u8]) -> (r: u64)
    ensures
        r == bit_of(list, item@),
{
    match list {
        BitList::Hashes => {
            if is_text(item, "sha256") {
                R_HASH_SHA256
            } else if is_text(item, "sha1") {
                R_HASH_SHA1
            } else {
                0
            }
        },
        BitList::Services => {
            if is_text(item, "*") {
                R_SVC_ALL
            } else if is_text(item, "email") {
                R_SVC_EMAIL
            } else {
                0
            }
        },
        BitList::Flags => {
            if is_text(item, "y") {
                R_FLAG_TESTING
            } else if is_text(item, "s") {
                R_FLAG_MATCH_DOMAIN
            } else {
                0
            }
        },
    }
}

fn parse_bits(list: BitList, value: Option<&[u8]>) -> (r: u64)
    ensures
        r == list_bits(list, opt_view(value)),
{
    match value {
        None => match list {
            BitList::Hashes => R_HASH_SHA1 | R_HASH_SHA256,
            BitList::Services => R_SVC_ALL,
            BitList::Flags => 0,
        },
        Some(v) => {
            let parts = split_items(v, COLON);
            let ghost all = items(v@, COLON);
            let mut acc: u64 = 0;
            let mut k: usize = 0;
            while k < parts.len()
                invariant
                    k <= parts@.len(),
                    all == Seq::new(parts@.len(), |i: int| parts@[i]@),
                    acc == bits_of(list, all.take(k as int)),
                decreases parts@.len() - k,
            {
                proof {
                    assert(all.take(k + 1).drop_last() =~= all.take(k as int));
                    assert(all.take(k + 1).last() == parts@[k as int]@);
                }
                acc = acc | item_bit(list, parts[k]);
                k += 1;
            }
            proof {
                assert(all.take(parts@.len() as int) =~= all);
            }
            acc
        },
    }
}

fn item_report_bit(item: &[u8]) -> (r: u8)
    ensures
        r == report_bit(item@),
{
    if is_text(item, "all") {
        RR_ALL
    } else if is_text(item, "d") {
        RR_DNS
    } else if is_text(item, "o") {
        RR_OTHER
    } else if is_text(item, "p") {
        RR_POLICY
    } else if is_text(item, "s") {
        RR_SIGNATURE
    } else if is_text(item, "u") {
        RR_UNKNOWN_TAG
    } else if is_text(item, "v") {
        RR_VERIFICATION
    } else if is_text(item, "x") {
        RR_EXPIRATION
    } else {
        0
    }
}

fn parse_report_bits(v: &[u8]) -> (r: u8)
    ensures
        r == report_bits(items(v@, COLON)),
{
    let parts = split_items(v, COLON);
    let ghost all = items(v@, COLON);
    let mut acc: u8 = 0;
    let mut k: usize = 0;
    while k < parts.len()
        invariant
            k <= parts@.len(),
            all == Seq::new(parts@.len(), |i: int| parts@[i]@),
            acc == report_bits(all.take(k as int)),
        decreases parts@.len() - k,
    {
        proof {
            assert(all.take(k + 1).drop_last() =~= all.take(k as int));
            assert(all.take(k + 1).last() == parts@[k as int]@);
        }
        acc = acc | item_report_bit(parts[k]);
        k += 1;
    }
    proof {
        assert(all.take(parts@.len() as int) =~= all);
    }
    acc
}

fn parse_percent(rp: Option<&[u8]>) -> (r: Option<u8>)
    ensures
        r == percent_of(opt_view(rp)),
{
    match rp {
        None => Some(100),
        Some(v) => match parse_decimal(v) {
            Some(n) => {
                if n <= 100 {
                    Some(n as u8)
                } else {
                    None
                }
            },
            None => None,
        },
    }
}

fn parse_key_type(k: Option<&[u8]>) -> (r: Option<KeyType>)
    ensures
        r == key_type_of(opt_view(k)),
{
    match k {
        None => Some(KeyType::Rsa),
        Some(v) => {
            if is_text(v, "rsa") {
                Some(KeyType::Rsa)
            } else if is_text(v, "ed25519") {
                Some(KeyType::Ed25519)
            } else {
                None
            }
        },
    }
}

fn optional_text(v: Option<&[u8]>) -> (r: Option<Option<String>>)
    ensures
        r is Some <==> utf8_if_some(opt_view(v)),
        r is Some ==> text_bytes(r->0) == opt_view(v),
{
    match v {
        None => Some(None),
        Some(bytes) => match text(bytes) {
            Some(t) => Some(Some(t)),
            None => None,
        },
    }
}

impl DomainKeyReport {
    /// The report request among the tags of a key record.
    pub fn from_tags(tags: &Vec<Tag<'_>>) -> (r: Option<Option<DomainKeyReport>>)
        ensures
            match r {
                Some(Some(report)) => report_of(tags_view(tags@)) == Some(Some(report@)),
                Some(None) => report_of(tags_view(tags@)) == Some(None::<ReportView>),
                None => report_of(tags_view(tags@)) is None,
            },
    {
        let ra = get(tags, "ra");
        let rp = get(tags, "rp");
        let rr = get(tags, "rr");
        let rs = get(tags, "rs");
        match ra {
            None => Some(None),
            Some(addr) => {
                let (ra, rs, rp) = match (text(addr), optional_text(rs), parse_percent(rp)) {
                    (Some(ra), Some(rs), Some(rp)) => (ra, rs, rp),
                    _ => {
                        return None;
                    },
                };
                let rr = match rr {
                    Some(list) => parse_report_bits(list),
                    None => RR_ALL,
                };
                Some(Some(DomainKeyReport { ra, rp, rr, rs }))
            },
        }
    }
}

/// What a failure-report record holds: a tag list with the reporting
/// address in `ra=`.
pub open spec fn report_record_of(txt: Seq<u8>) -> Result<ReportView, Error> {
    match tag_list(txt) {
        None => Err(Error::KeyRecordParseError),
        Some(tags) => match report_of(tags) {
            Some(Some(report)) => Ok(report),
            _ => Err(Error::KeyRecordParseError),
        },
    }
}

impl DomainKeyReport {
    /// Reads a failure-report record.
    pub fn parse(txt: &[u8]) -> (r: Result<DomainKeyReport, Error>)
        ensures
            match r {
                Ok(report) => report_record_of(txt@) == Ok::<ReportView, Error>(report@),
                Err(e) => report_record_of(txt@) == Err::<ReportView, Error>(e),
            },
    {
        let tags = match parse_tags(txt) {
            Some(tags) => tags,
            None => {
                return Err(Error::KeyRecordParseError);
            },
        };
        match DomainKeyReport::from_tags(&tags) {
            Some(Some(report)) => Ok(report),
            _ => Err(Error::KeyRecordParseError),
        }
    }
}

impl DomainKey {
    /// Whether the key record carries one of the bits of `flags`.
    pub fn has_flag(&self, flags: u64) -> (r: bool)
        ensures
            r == (self.f & flags != 0),
    {
        self.f & flags != 0
    }

    /// Reads a key record.
    pub fn parse(txt: &[u8]) -> (r: Result<DomainKey, Error>)
        ensures
            match r {
                Ok(key) => key_record_of(txt@) == Ok::<DomainKeyView, Error>(key@),
                Err(e) => key_record_of(txt@) == Err::<DomainKeyView, Error>(e),
            },
    {
        let tags = match parse_tags(txt) {
            Some(tags) => tags,
            None => {
                return Err(Error::KeyRecordParseError);
            },
        };
        match get(&tags, "v") {
            Some(v) => {
                if !is_text(v, "DKIM1") {
                    return Err(Error::KeyRecordParseError);
                }
            },
            None => {},
        }
        let k = match parse_key_type(get(&tags, "k")) {
            Some(k) => k,
            None => {
                return Err(Error::KeyRecordParseError);
            },
        };
        let p = match get(&tags, "p") {
            Some(p) => p,
            None => {
                return Err(Error::KeyRevoked);
            },
        };
        if p.len() == 0 {
            return Err(Error::KeyRevoked);
        }
        let p = match decode(p) {
            Some(p) => p,
            None => {
                return Err(Error::KeyRecordParseError);
            },
        };
        let report = match DomainKeyReport::from_tags(&tags) {
            Some(report) => report,
            None => {
                return Err(Error::KeyRecordParseError);
            },
        };
        let f = parse_bits(BitList::Hashes, get(&tags, "h")) | parse_bits(
            BitList::Services,
            get(&tags, "s"),
        ) | parse_bits(BitList::Flags, get(&tags, "t"));
        Ok(DomainKey { p, k, f, report })
    }
}

impl Atps {
    /// Reads an ATPS record.
    pub fn parse(txt: &[u8]) -> (r: Result<Atps, Error>)
        ensures
            match r {
                Ok(atps) => atps_of(txt@) == Ok::<AtpsView, Error>(atps@),
                Err(e) => atps_of(txt@) == Err::<AtpsView, Error>(e),
            },
    {
        let tags = match parse_tags(txt) {
            Some(tags) => tags,
            None => {
                return Err(Error::AtpsParseError);
            },
        };
        match get(&tags, "v") {
            Some(v) => {
                if !is_text(v, "ATPS1") {
                    return Err(Error::AtpsParseError);
                }
            },
            None => {
                return Err(Error::AtpsParseError);
            },
        }
        match optional_text(get(&tags, "d")) {
            Some(d) => Ok(Atps { v: Version::V1, d }),
            None => Err(Error::AtpsParseError),
        }
    }
}

} // verus!
