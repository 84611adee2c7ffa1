//! The `tag=value` lists of signature headers and DNS records.

use vstd::prelude::*;
use vstd::slice::slice_subrange;
use vstd::utf8::{encode_utf8, valid_utf8};
use crate::common::base64::{base64_decode, decode};
use crate::common::crypto::{Algorithm, HashAlgorithm};
use crate::dkim::canonicalize::{bytes_eq, is_fws, lower, lower_seq, to_lower, wsp, COLON, CR, LF};
use crate::dkim::headers::name_bytes;
use crate::dkim::{Canonicalization, Signature, SignatureView};
use crate::Error;

verus! {

/// Semicolon, which parts the tags of a list.
pub const SEMICOLON: u8 = 59;

/// Equals sign, which parts a tag's name from its value.
pub const EQUALS: u8 = 61;

/// One tag of a list, as a pair of byte sequences, name first. Neither
/// starts or ends with white space.
pub type TagView = (Seq<u8>, Seq<u8>);

/// One tag of a list.
#[derive(Debug, Clone, Copy, PartialEq, Eq)]
pub struct Tag<'a> {
    pub name: &'a [u8],
    pub value: &'a [u8],
}

/// The bytes of a piece of text.
pub open spec fn ascii(s: &str) -> Seq<u8> {
    encode_utf8(s@)
}

/// The index of the first `b` in `s` from `p` up to `e`; `e` if none.
pub open spec fn first_byte(s: Seq<u8>, b: u8, p: int, e: int) -> int
    decreases e - p,
{
    if p >= e || p < 0 || e > s.len() {
        e
    } else if s[p] == b {
        p
    } else {
        first_byte(s, b, p + 1, e)
    }
}

/// The index of the first byte from `lo` up to `hi` that is no white space;
/// `hi` if all are.
pub open spec fn trim_start(s: Seq<u8>, lo: int, hi: int) -> int
    decreases hi - lo,
{
    if 0 <= lo < hi <= s.len() && is_fws(s[lo]) {
        trim_start(s, lo + 1, hi)
    } else {
        lo
    }
}

/// The index after the last byte from `lo` up to `hi` that is no white
/// space; `lo` if all are.
pub open spec fn trim_end(s: Seq<u8>, lo: int, hi: int) -> int
    decreases hi - lo,
{
    if 0 <= lo < hi <= s.len() && is_fws(s[hi - 1]) {
        trim_end(s, lo, hi - 1)
    } else {
        hi
    }
}

/// The bytes of `s` from `lo` up to `hi` without the white space at either end.
pub open spec fn trimmed(s: Seq<u8>, lo: int, hi: int) -> Seq<u8> {
    let a = trim_start(s, lo, hi);
    s.subrange(a, trim_end(s, a, hi))
}

/// The tags of `s` from `p` on, or `None` if a piece between two semicolons
/// is neither blank nor a name, an equals sign and a value.
pub open spec fn tags_from(s: Seq<u8>, p: int) -> Option<Seq<TagView>>
    decreases s.len() - p,
{
    if p < 0 || p > s.len() {
        Some(Seq::<TagView>::empty())
    } else {
        let e = first_byte(s, SEMICOLON, p, s.len() as int);
        let q = first_byte(s, EQUALS, p, e);
        let rest = if p <= e < s.len() {
            tags_from(s, e + 1)
        } else {
            Some(Seq::<TagView>::empty())
        };
        if trim_start(s, p, e) >= e {
            rest
        } else if q >= e || trimmed(s, p, q).len() == 0 {
            None
        } else {
            match rest {
                Some(tags) => Some(seq![(trimmed(s, p, q), trimmed(s, q + 1, e))] + tags),
                None => None,
            }
        }
    }
}

/// The tags of a list, in the order in which they stand.
pub open spec fn tag_list(s: Seq<u8>) -> Option<Seq<TagView>> {
    tags_from(s, 0)
}

/// The value of the first tag named `name`.
pub open spec fn tag_value(tags: Seq<TagView>, name: Seq<u8>) -> Option<Seq<u8>>
    decreases tags.len(),
{
    if tags.len() == 0 {
        None
    } else if tags[0].0 == name {
        Some(tags[0].1)
    } else {
        tag_value(tags.drop_first(), name)
    }
}

/// The tags that a vector of tags stands for.
pub open spec fn tags_view(v: Seq<Tag<'_>>) -> Seq<TagView> {
    Seq::new(v.len(), |i: int| (v[i].name@, v[i].value@))
}

/// Whether `s` is one or more decimal digits.
pub open spec fn is_decimal(s: Seq<u8>) -> bool {
    s.len() > 0 && forall|k: int| 0 <= k < s.len() ==> 48 <= #[trigger] s[k] <= 57
}

/// The number that the decimal digits `s` denote.
pub open spec fn decimal_value(s: Seq<u8>) -> nat
    decreases s.len(),
{
    if s.len() == 0 {
        0
    } else {
        decimal_value(s.drop_last()) * 10 + (s.last() - 48) as nat
    }
}

/// The number that `s` denotes, if `s` is decimal digits and the number fits.
pub open spec fn decimal_u64(s: Seq<u8>) -> Option<u64> {
    if is_decimal(s) && decimal_value(s) <= u64::MAX {
        Some(decimal_value(s) as u64)
    } else {
        None
    }
}

/// The pieces of `s` from `p` on that `sep` parts, each without white space
/// at its ends, the empty ones left out.
pub open spec fn items_from(s: Seq<u8>, sep: u8, p: int) -> Seq<Seq<u8>>
    decreases s.len() - p,
{
    if p < 0 || p > s.len() {
        Seq::<Seq<u8>>::empty()
    } else {
        let e = first_byte(s, sep, p, s.len() as int);
        let rest = if p <= e < s.len() {
            items_from(s, sep, e + 1)
        } else {
            Seq::<Seq<u8>>::empty()
        };
        if trim_start(s, p, e) >= e {
            rest
        } else {
            seq![trimmed(s, p, e)] + rest
        }
    }
}

/// The items of a list whose separator is `sep`.
pub open spec fn items(s: Seq<u8>, sep: u8) -> Seq<Seq<u8>> {
    items_from(s, sep, 0)
}

proof fn lemma_decimal_prefix(s: Seq<u8>, n: int)
    requires
        is_decimal(s),
        0 <= n <= s.len(),
    ensures
        decimal_value(s.take(n)) <= decimal_value(s),
    decreases s.len() - n,
{
    if n < s.len() {
        let longer = s.take(n + 1);
        assert(longer.drop_last() =~= s.take(n));
        assert(longer.last() == s[n]);
        if n + 1 < s.len() {
            assert(is_decimal(s));
        }
        lemma_decimal_prefix(s, n + 1);
    } else {
        assert(s.take(n) =~= s);
    }
}

/// Whether `b` is a space, a tab, a carriage return or a line feed.
pub fn fws(b: u8) -> (r: bool)
    ensures
        r == is_fws(b),
{
    wsp(b) || b == CR || b == LF
}

/// The index of the first `b` in `s` from `p` up to `e`; `e` if none.
pub fn scan_byte(s: &[u8], b: u8, p: usize, e: usize) -> (r: usize)
    requires
        p <= e <= s@.len(),
    ensures
        r == first_byte(s@, b, p as int, e as int),
        p <= r <= e,
{
    let mut q: usize = p;
    while q < e && s[q] != b
        invariant
            p <= q <= e <= s@.len(),
            first_byte(s@, b, q as int, e as int) == first_byte(s@, b, p as int, e as int),
        decreases e - q,
    {
        q += 1;
    }
    q
}

fn scan_trim_start(s: &[u8], lo: usize, hi: usize) -> (r: usize)
    requires
        lo <= hi <= s@.len(),
    ensures
        r == trim_start(s@, lo as int, hi as int),
        lo <= r <= hi,
{
    let mut q: usize = lo;
    while q < hi && fws(s[q])
        invariant
            lo <= q <= hi <= s@.len(),
            trim_start(s@, q as int, hi as int) == trim_start(s@, lo as int, hi as int),
        decreases hi - q,
    {
        q += 1;
    }
    q
}

fn scan_trim_end(s: &[u8], lo: usize, hi: usize) -> (r: usize)
    requires
        lo <= hi <= s@.len(),
    ensures
        r == trim_end(s@, lo as int, hi as int),
        lo <= r <= hi,
{
    let mut q: usize = hi;
    while lo < q && fws(s[q - 1])
        invariant
            lo <= q <= hi <= s@.len(),
            trim_end(s@, lo as int, q as int) == trim_end(s@, lo as int, hi as int),
        decreases q - lo,
    {
        q -= 1;
    }
    q
}

/// The bytes of `s` from `lo` up to `hi` without the white space at either end.
pub fn trim<'a>(s: &'a [u8], lo: usize, hi: usize) -> (r: &'a [u8])
    requires
        lo <= hi <= s@.len(),
    ensures
        r@ == trimmed(s@, lo as int, hi as int),
{
    let a = scan_trim_start(s, lo, hi);
    let b = scan_trim_end(s, a, hi);
    slice_subrange(s, a, b)
}

/// The tags of a list, or `None` if the list is malformed.
pub fn parse_tags<'a>(s: &'a [u8]) -> (r: Option<Vec<Tag<'a>>>)
    ensures
        match r {
            Some(tags) => tag_list(s@) == Some(tags_view(tags@)),
            None => tag_list(s@) is None,
        },
{
    let mut tags: Vec<Tag<'a>> = Vec::new();
    let mut p: usize = 0;
    let mut open = true;
    proof {
        if tags_from(s@, 0) is Some {
            assert(tags_view(tags@) + tags_from(s@, 0)->0 =~= tags_from(s@, 0)->0);
        }
    }
    while open
        invariant
            p <= s@.len(),
            open ==> (tags_from(s@, p as int) is None ==> tag_list(s@) is None),
            open ==> (tags_from(s@, p as int) is Some ==> tag_list(s@) == Some(
                tags_view(tags@) + tags_from(s@, p as int)->0,
            )),
            !open ==> tag_list(s@) == Some(tags_view(tags@)),
        decreases s@.len() - p + (if open { 1int } else { 0int }),
    {
        let e = scan_byte(s, SEMICOLON, p, s.len());
        let a = scan_trim_start(s, p, e);
        let ghost before = tags_view(tags@);
        if a < e {
            let q = scan_byte(s, EQUALS, p, e);
            if q >= e {
                return None;
            }
            let name = trim(s, p, q);
            if name.len() == 0 {
                return None;
            }
            let value = trim(s, q + 1, e);
            tags.push(Tag { name, value });
            proof {
                let tag = (name@, value@);
                assert(tags_view(tags@) =~= before.push(tag));
                if e < s@.len() {
                    if tags_from(s@, e + 1) is Some {
                        let rest = tags_from(s@, e + 1)->0;
                        assert(before + (seq![tag] + rest) =~= before.push(tag) + rest);
                    }
                } else {
                    assert(before + (seq![tag] + Seq::<TagView>::empty()) =~= before.push(tag));
                }
            }
        } else {
            proof {
                if e >= s@.len() {
                    assert(before + Seq::<TagView>::empty() =~= before);
                }
            }
        }
        if e < s.len() {
            p = e + 1;
        } else {
            open = false;
        }
    }
    Some(tags)
}

/// The value of the first tag named `name`.
pub fn find_tag<'a>(tags: &Vec<Tag<'a>>, name: &[u8]) -> (r: Option<&'a [u8]>)
    ensures
        match r {
            Some(value) => tag_value(tags_view(tags@), name@) == Some(value@),
            None => tag_value(tags_view(tags@), name@) is None,
        },
{
    let ghost all = tags_view(tags@);
    let mut i: usize = 0;
    proof {
        assert(all.skip(0) =~= all);
    }
    while i < tags.len()
        invariant
            i <= tags@.len(),
            all == tags_view(tags@),
            tag_value(all.skip(i as int), name@) == tag_value(all, name@),
        decreases tags@.len() - i,
    {
        proof {
            assert(all.skip(i as int).drop_first() =~= all.skip(i + 1));
            assert(all.skip(i as int)[0] == all[i as int]);
        }
        if bytes_eq(tags[i].name, name) {
            return Some(tags[i].value);
        }
        i += 1;
    }
    None
}

/// The number that `s` denotes, if `s` is decimal digits and the number fits.
pub fn parse_decimal(s: &[u8]) -> (r: Option<u64>)
    ensures
        r == decimal_u64(s@),
{
    if s.len() == 0 {
        return None;
    }
    let mut acc: u64 = 0;
    let mut i: usize = 0;
    while i < s.len()
        invariant
            i <= s@.len(),
            s@.len() > 0,
            forall|k: int| 0 <= k < i ==> 48 <= #[trigger] s@[k] <= 57,
            acc == decimal_value(s@.take(i as int)),
        decreases s@.len() - i,
    {
        let b = s[i];
        if b < 48 || b > 57 {
            return None;
        }
        proof {
            let longer = s@.take(i + 1);
            assert(longer.drop_last() =~= s@.take(i as int));
            assert(longer.last() == b);
            if is_decimal(s@) {
                lemma_decimal_prefix(s@, i + 1);
            }
        }
        let digit: u64 = (b - 48) as u64;
        if acc > (u64::MAX - digit) / 10 {
            return None;
        }
        acc = acc * 10 + digit;
        i += 1;
    }
    proof {
        assert(s@.take(s@.len() as int) =~= s@);
    }
    Some(acc)
}

/// The items of a list whose separator is `sep`.
pub fn split_items<'a>(s: &'a [u8], sep: u8) -> (r: Vec<&'a [u8]>)
    ensures
        Seq::new(r@.len(), |i: int| r@[i]@) == items(s@, sep),
{
    let mut out: Vec<&'a [u8]> = Vec::new();
    let mut p: usize = 0;
    let mut open = true;
    proof {
        assert(Seq::new(out@.len(), |i: int| out@[i]@) + items_from(s@, sep, 0) =~= items_from(
            s@,
            sep,
            0,
        ));
    }
    while open
        invariant
            p <= s@.len(),
            open ==> Seq::new(out@.len(), |i: int| out@[i]@) + items_from(s@, sep, p as int)
                == items(s@, sep),
            !open ==> Seq::new(out@.len(), |i: int| out@[i]@) == items(s@, sep),
        decreases s@.len() - p + (if open { 1int } else { 0int }),
    {
        let e = scan_byte(s, sep, p, s.len());
        let a = scan_trim_start(s, p, e);
        let ghost before = Seq::new(out@.len(), |i: int| out@[i]@);
        let ghost rest = if e < s@.len() {
            items_from(s@, sep, e + 1)
        } else {
            Seq::<Seq<u8>>::empty()
        };
        if a < e {
            let item = trim(s, p, e);
            out.push(item);
            proof {
                assert(Seq::new(out@.len(), |i: int| out@[i]@) =~= before.push(item@));
                assert(before + (seq![item@] + rest) =~= before.push(item@) + rest);
            }
        }
        proof {
            if e >= s@.len() {
                let now = Seq::new(out@.len(), |i: int| out@[i]@);
                assert(now + rest =~= now);
            }
        }
        if e < s.len() {
            p = e + 1;
        } else {
            open = false;
        }
    }
    out
}

/// [`String::from_utf8`] with its error dropped: the bytes become text
/// exactly if they are UTF-8, and the text then encodes to those bytes.
#[verifier::external_body]
fn text_from_utf8(bytes: Vec<u8>) -> (r: Option<String>)
    ensures
        r is Some <==> valid_utf8(bytes@),
        r is Some ==> encode_utf8(r->0@) == bytes@,
{
    String::from_utf8(bytes).ok()
}

/// The text that `bytes` encode, if they are UTF-8.
pub fn text(bytes: &[u8]) -> (r: Option<String>)
    ensures
        r is Some <==> valid_utf8(bytes@),
        r is Some ==> encode_utf8(r->0@) == bytes@,
{
    text_from_utf8(vstd::slice::slice_to_vec(bytes))
}

/// Vertical bar, which parts the copied header fields of a `z=` tag.
pub const BAR: u8 = 124;

/// At sign, which parts the local part of an identity from its domain.
pub const AT: u8 = 64;

/// Full stop, which parts the labels of a domain.
pub const DOT: u8 = 46;

/// The index at which the domain of the identity `i` starts: after its last
/// at sign, or at 0 if it has none.
pub open spec fn domain_start(i: Seq<u8>) -> int
    decreases i.len(),
{
    if i.len() == 0 {
        0
    } else if i.last() == AT {
        i.len() as int
    } else {
        domain_start(i.drop_last())
    }
}

/// The domain of the identity `i`.
pub open spec fn identity_domain(i: Seq<u8>) -> Seq<u8> {
    i.skip(domain_start(i))
}

/// Whether `a` and `b` are the same domain: case does not count.
pub open spec fn same_domain(a: Seq<u8>, b: Seq<u8>) -> bool {
    lower_seq(a) == lower_seq(b)
}

/// Whether `sub` is the domain `d` or one below it.
pub open spec fn within_domain(sub: Seq<u8>, d: Seq<u8>) -> bool {
    same_domain(sub, d) || (sub.len() > d.len() && sub[sub.len() - d.len() - 1] == DOT
        && same_domain(sub.skip(sub.len() - d.len()), d))
}

/// Whether the identity `i` is consistent with the signing domain `d`: it is
/// empty, or its domain is `d` or one below it.
pub open spec fn identity_within(i: Seq<u8>, d: Seq<u8>) -> bool {
    i.len() == 0 || within_domain(identity_domain(i), d)
}

/// Whether `a` and `b` are the same domain.
pub fn domains_match(a: &[u8], b: &[u8]) -> (r: bool)
    ensures
        r == same_domain(a@, b@),
{
    if a.len() != b.len() {
        proof {
            assert(lower_seq(a@).len() != lower_seq(b@).len());
        }
        return false;
    }
    let mut k: usize = 0;
    while k < a.len()
        invariant
            k <= a@.len(),
            a@.len() == b@.len(),
            forall|j: int| 0 <= j < k ==> lower(a@[j]) == lower(b@[j]),
        decreases a@.len() - k,
    {
        if to_lower(a[k]) != to_lower(b[k]) {
            proof {
                assert(lower_seq(a@)[k as int] != lower_seq(b@)[k as int]);
            }
            return false;
        }
        k += 1;
    }
    proof {
        assert(lower_seq(a@) =~= lower_seq(b@));
    }
    true
}

/// The domain of the identity `i`.
pub fn domain_of_identity<'a>(i: &'a [u8]) -> (r: &'a [u8])
    ensures
        r@ == identity_domain(i@),
{
    let mut q: usize = i.len();
    proof {
        assert(i@.take(q as int) =~= i@);
    }
    while q > 0 && i[q - 1] != AT
        invariant
            q <= i@.len(),
            domain_start(i@.take(q as int)) == domain_start(i@),
        decreases q,
    {
        proof {
            assert(i@.take(q as int).drop_last() =~= i@.take(q - 1));
        }
        q -= 1;
    }
    proof {
        assert(i@.subrange(q as int, i@.len() as int) =~= i@.skip(q as int));
    }
    slice_subrange(i, q, i.len())
}

/// Whether `sub` is the domain `d` or one below it.
pub fn is_within_domain(sub: &[u8], d: &[u8]) -> (r: bool)
    ensures
        r == within_domain(sub@, d@),
{
    if domains_match(sub, d) {
        return true;
    }
    if sub.len() <= d.len() {
        return false;
    }
    let at = sub.len() - d.len();
    if sub[at - 1] != DOT {
        return false;
    }
    proof {
        assert(sub@.subrange(at as int, sub@.len() as int) =~= sub@.skip(at as int));
    }
    domains_match(slice_subrange(sub, at, sub.len()), d)
}

/// Whether the identity `i` is consistent with the signing domain `d`.
pub fn is_identity_within(i: &[u8], d: &[u8]) -> (r: bool)
    ensures
        r == identity_within(i@, d@),
{
    i.len() == 0 || is_within_domain(domain_of_identity(i), d)
}

/// The algorithm that an `a=` value names.
pub open spec fn algorithm_of(a: Seq<u8>) -> Option<Algorithm> {
    if a == ascii("rsa-sha256") {
        Some(Algorithm::RsaSha256)
    } else if a == ascii("rsa-sha1") {
        Some(Algorithm::RsaSha1)
    } else if a == ascii("ed25519-sha256") {
        Some(Algorithm::Ed25519Sha256)
    } else {
        None
    }
}

/// The canonicalizations that a `c=` value names, for headers and for the
/// body. Without the tag both are simple; without a second part the body's
/// is simple.
pub open spec fn canonicalization_of(c: Option<Seq<u8>>) -> Option<
    (Canonicalization, Canonicalization),
> {
    match c {
        None => Some((Canonicalization::Simple, Canonicalization::Simple)),
        Some(v) => if v == ascii("simple") || v == ascii("simple/simple") {
            Some((Canonicalization::Simple, Canonicalization::Simple))
        } else if v == ascii("simple/relaxed") {
            Some((Canonicalization::Simple, Canonicalization::Relaxed))
        } else if v == ascii("relaxed") || v == ascii("relaxed/simple") {
            Some((Canonicalization::Relaxed, Canonicalization::Simple))
        } else if v == ascii("relaxed/relaxed") {
            Some((Canonicalization::Relaxed, Canonicalization::Relaxed))
        } else {
            None
        },
    }
}

/// The header canonicalization of a pair; simple where there is no pair.
pub open spec fn header_mode(pair: Option<(Canonicalization, Canonicalization)>) -> Canonicalization {
    match pair {
        Some((ch, _)) => ch,
        None => Canonicalization::Simple,
    }
}

/// The body canonicalization of a pair; simple where there is no pair.
pub open spec fn body_mode(pair: Option<(Canonicalization, Canonicalization)>) -> Canonicalization {
    match pair {
        Some((_, cb)) => cb,
        None => Canonicalization::Simple,
    }
}

/// The hash function that an `atpsh=` value names; `Some(None)` where it
/// names none, `None` where it is not understood.
pub open spec fn atps_hash_of(v: Option<Seq<u8>>) -> Option<Option<HashAlgorithm>> {
    match v {
        None => Some(None),
        Some(v) => if v == ascii("sha256") {
            Some(Some(HashAlgorithm::Sha256))
        } else if v == ascii("sha1") {
            Some(Some(HashAlgorithm::Sha1))
        } else if v == ascii("none") {
            Some(None)
        } else {
            None
        },
    }
}

/// The number of an optional tag: 0 without the tag, `None` where the value
/// is no number that fits.
pub open spec fn number_of(v: Option<Seq<u8>>) -> Option<u64> {
    match v {
        None => Some(0),
        Some(v) => decimal_u64(v),
    }
}

/// Whether each of `items` is UTF-8.
pub open spec fn all_utf8(items: Seq<Seq<u8>>) -> bool {
    forall|k: int| 0 <= k < items.len() ==> valid_utf8(#[trigger] items[k])
}

/// Whether an optional value is UTF-8 where it is there.
pub open spec fn utf8_if_some(v: Option<Seq<u8>>) -> bool {
    v is Some ==> valid_utf8(v->0)
}

/// The value of an optional tag; empty without the tag.
pub open spec fn or_empty(v: Option<Seq<u8>>) -> Seq<u8> {
    match v {
        Some(v) => v,
        None => Seq::<u8>::empty(),
    }
}

/// The items of an optional list; none without the tag.
pub open spec fn items_of(v: Option<Seq<u8>>, sep: u8) -> Seq<Seq<u8>> {
    match v {
        Some(v) => items(v, sep),
        None => Seq::<Seq<u8>>::empty(),
    }
}

/// What the tags of a signature header hold, but for the version; the
/// identity is handed in, since not every kind of signature has one.
///
/// The tags `a`, `d`, `s`, `h`, `b` and `bh` must be there; tags that are
/// not known are passed over. Of several tags with one name the first
/// counts. An identity must lie within the signing domain.
pub open spec fn signature_from(tags: Seq<TagView>, i: Option<Seq<u8>>) -> Result<
    SignatureView,
    Error,
> {
    let a = tag_value(tags, ascii("a"));
    let d = tag_value(tags, ascii("d"));
    let s = tag_value(tags, ascii("s"));
    let h = tag_value(tags, ascii("h"));
    let b = tag_value(tags, ascii("b"));
    let bh = tag_value(tags, ascii("bh"));
    let c = tag_value(tags, ascii("c"));
    let z = tag_value(tags, ascii("z"));
    let l = tag_value(tags, ascii("l"));
    let x = tag_value(tags, ascii("x"));
    let t = tag_value(tags, ascii("t"));
    let r = tag_value(tags, ascii("r"));
    let atps = tag_value(tags, ascii("atps"));
    let atpsh = tag_value(tags, ascii("atpsh"));
    if a is None || d is None || s is None || h is None || b is None || bh is None {
        Err(Error::SignatureParseError)
    } else if algorithm_of(a->0) is None {
        Err(Error::UnsupportedAlgorithm)
    } else if canonicalization_of(c) is None {
        Err(Error::UnsupportedCanonicalization)
    } else if base64_decode(b->0) is None || base64_decode(bh->0) is None {
        Err(Error::SignatureParseError)
    } else if !valid_utf8(d->0) || !valid_utf8(s->0) || !utf8_if_some(i) || !utf8_if_some(atps)
        || !all_utf8(items(h->0, COLON)) || !all_utf8(items_of(z, BAR)) {
        Err(Error::SignatureParseError)
    } else if number_of(l) is None || number_of(x) is None || number_of(t) is None {
        Err(Error::SignatureParseError)
    } else if atps_hash_of(atpsh) is None {
        Err(Error::UnsupportedAlgorithm)
    } else if !identity_within(or_empty(i), d->0) {
        Err(Error::IdentityMismatch)
    } else {
        Ok(
            SignatureView {
                v: 1,
                a: algorithm_of(a->0)->0,
                d: d->0,
                s: s->0,
                b: base64_decode(b->0)->0,
                bh: base64_decode(bh->0)->0,
                h: items(h->0, COLON),
                z: items_of(z, BAR),
                i: or_empty(i),
                l: number_of(l)->0,
                x: number_of(x)->0,
                t: number_of(t)->0,
                r: r == Some(ascii("y")),
                atps: atps,
                atpsh: atps_hash_of(atpsh)->0,
                ch: header_mode(canonicalization_of(c)),
                cb: body_mode(canonicalization_of(c)),
            },
        )
    }
}

/// What a DKIM-Signature header value holds: what its tags hold, with `i=`
/// as the identity. The list must be well formed and `v=` must be 1.
pub open spec fn signature_of(input: Seq<u8>) -> Result<SignatureView, Error> {
    match tag_list(input) {
        None => Err(Error::SignatureParseError),
        Some(tags) => if tag_value(tags, ascii("v")) != Some(ascii("1")) {
            Err(Error::SignatureParseError)
        } else {
            signature_from(tags, tag_value(tags, ascii("i")))
        },
    }
}

/// A signature header without one of the tags `v`, `a`, `d`, `s`, `h`, `b`
/// and `bh` states no signature: reading it gives `SignatureParseError`.
pub proof fn lemma_missing_tag_is_refused(input: Seq<u8>, name: Seq<u8>)
    requires
        tag_list(input) is Some,
        tag_value(tag_list(input)->0, name) is None,
        name == ascii("v") || name == ascii("a") || name == ascii("d") || name == ascii("s")
            || name == ascii("h") || name == ascii("b") || name == ascii("bh"),
    ensures
        signature_of(input) == Err::<SignatureView, Error>(Error::SignatureParseError),
{
}

/// The greatest instance number an ARC chain may reach.
pub const MAX_INSTANCE: u32 = 50;

/// The instance number that an `i=` value of an ARC header states.
pub open spec fn instance_of(v: Option<Seq<u8>>) -> Option<u32> {
    match v {
        None => None,
        Some(v) => match decimal_u64(v) {
            Some(n) => if 1 <= n <= MAX_INSTANCE {
                Some(n as u32)
            } else {
                None
            },
            None => None,
        },
    }
}

/// What an ARC-Message-Signature header value holds: an instance number in
/// `i=`, and what its tags hold, without version and without identity.
pub open spec fn message_signature_of(input: Seq<u8>) -> Result<(u32, SignatureView), Error> {
    match tag_list(input) {
        None => Err(Error::SignatureParseError),
        Some(tags) => match instance_of(tag_value(tags, ascii("i"))) {
            None => Err(Error::SignatureParseError),
            Some(n) => match signature_from(tags, None) {
                Ok(sig) => Ok((n, sig)),
                Err(e) => Err(e),
            },
        },
    }
}

/// Whether `value` is the text `t`.
pub fn is_text(value: &[u8], t: &str) -> (r: bool)
    ensures
        r == (value@ == ascii(t)),
{
    bytes_eq(value, t.as_bytes())
}

/// The value of the first tag named `name`.
pub fn get<'a>(tags: &Vec<Tag<'a>>, name: &str) -> (r: Option<&'a [u8]>)
    ensures
        match r {
            Some(value) => tag_value(tags_view(tags@), ascii(name)) == Some(value@),
            None => tag_value(tags_view(tags@), ascii(name)) is None,
        },
{
    find_tag(tags, name.as_bytes())
}

/// The view of an optional value.
pub open spec fn opt_view(v: Option<&[u8]>) -> Option<Seq<u8>> {
    match v {
        Some(v) => Some(v@),
        None => None,
    }
}

/// The algorithm that an `a=` value names.
pub fn parse_algorithm(a: &[u8]) -> (r: Option<Algorithm>)
    ensures
        r == algorithm_of(a@),
{
    if is_text(a, "rsa-sha256") {
        Some(Algorithm::RsaSha256)
    } else if is_text(a, "rsa-sha1") {
        Some(Algorithm::RsaSha1)
    } else if is_text(a, "ed25519-sha256") {
        Some(Algorithm::Ed25519Sha256)
    } else {
        None
    }
}

fn parse_canonicalization(c: Option<&[u8]>) -> (r: Option<(Canonicalization, Canonicalization)>)
    ensures
        r == canonicalization_of(opt_view(c)),
{
    match c {
        None => Some((Canonicalization::Simple, Canonicalization::Simple)),
        Some(v) => {
            if is_text(v, "simple") || is_text(v, "simple/simple") {
                Some((Canonicalization::Simple, Canonicalization::Simple))
            } else if is_text(v, "simple/relaxed") {
                Some((Canonicalization::Simple, Canonicalization::Relaxed))
            } else if is_text(v, "relaxed") || is_text(v, "relaxed/simple") {
                Some((Canonicalization::Relaxed, Canonicalization::Simple))
            } else if is_text(v, "relaxed/relaxed") {
                Some((Canonicalization::Relaxed, Canonicalization::Relaxed))
            } else {
                None
            }
        },
    }
}

fn parse_atps_hash(v: Option<&[u8]>) -> (r: Option<Option<HashAlgorithm>>)
    ensures
        r == atps_hash_of(opt_view(v)),
{
    match v {
        None => Some(None),
        Some(v) => {
            if is_text(v, "sha256") {
                Some(Some(HashAlgorithm::Sha256))
            } else if is_text(v, "sha1") {
                Some(Some(HashAlgorithm::Sha1))
            } else if is_text(v, "none") {
                Some(None)
            } else {
                None
            }
        },
    }
}

fn parse_number(v: Option<&[u8]>) -> (r: Option<u64>)
    ensures
        r == number_of(opt_view(v)),
{
    match v {
        None => Some(0),
        Some(v) => parse_decimal(v),
    }
}

fn optional_text(v: Option<&[u8]>) -> (r: Option<Option<String>>)
    ensures
        r is Some <==> utf8_if_some(opt_view(v)),
        r is Some ==> (r->0 is Some <==> v is Some),
        r is Some && v is Some ==> encode_utf8(r->0->0@) == v->0@,
{
    match v {
        None => Some(None),
        Some(bytes) => match text(bytes) {
            Some(t) => Some(Some(t)),
            None => None,
        },
    }
}

/// The texts that the items of a list encode, if each is UTF-8.
pub fn texts(list: Option<&[u8]>, sep: u8) -> (r: Option<Vec<String>>)
    ensures
        r is Some <==> all_utf8(items_of(opt_view(list), sep)),
        r is Some ==> name_bytes(r->0@) == items_of(opt_view(list), sep),
{
    let mut out: Vec<String> = Vec::new();
    match list {
        None => {
            proof {
                assert(name_bytes(out@) =~= Seq::<Seq<u8>>::empty());
            }
            Some(out)
        },
        Some(bytes) => {
            let parts = split_items(bytes, sep);
            let ghost all = items(bytes@, sep);
            let mut k: usize = 0;
            proof {
                assert(name_bytes(out@) =~= all.take(0));
            }
            while k < parts.len()
                invariant
                    k <= parts@.len(),
                    list == Some(bytes),
                    all == items(bytes@, sep),
                    all == Seq::new(parts@.len(), |i: int| parts@[i]@),
                    name_bytes(out@) == all.take(k as int),
                    forall|j: int| 0 <= j < k ==> valid_utf8(#[trigger] all[j]),
                decreases parts@.len() - k,
            {
                let ghost before = name_bytes(out@);
                match text(parts[k]) {
                    Some(t) => {
                        out.push(t);
                        proof {
                            assert(all[k as int] == parts@[k as int]@);
                            assert(name_bytes(out@) =~= before.push(all[k as int]));
                            assert(all.take(k + 1) =~= all.take(k as int).push(all[k as int]));
                        }
                    },
                    None => {
                        proof {
                            assert(all[k as int] == parts@[k as int]@);
                            assert(!valid_utf8(all[k as int]));
                        }
                        return None;
                    },
                }
                k += 1;
            }
            proof {
                assert(all.take(parts@.len() as int) =~= all);
            }
            Some(out)
        },
    }
}

/// The instance number that an `i=` value of an ARC header states.
pub fn parse_instance(v: Option<&[u8]>) -> (r: Option<u32>)
    ensures
        r == instance_of(opt_view(v)),
{
    match v {
        None => None,
        Some(v) => match parse_decimal(v) {
            Some(n) => {
                if 1 <= n && n <= 50 {
                    Some(n as u32)
                } else {
                    None
                }
            },
            None => None,
        },
    }
}

impl Signature {
    /// Reads the tags of a signature header, but for the version.
    pub fn from_tags(tags: &Vec<Tag<'_>>, i: Option<&[u8]>) -> (r: Result<Signature, Error>)
        ensures
            match r {
                Ok(sig) => signature_from(tags_view(tags@), opt_view(i)) == Ok::<
                    SignatureView,
                    Error,
                >(sig@),
                Err(e) => signature_from(tags_view(tags@), opt_view(i)) == Err::<
                    SignatureView,
                    Error,
                >(e),
            },
    {
        let ghost want = signature_from(tags_view(tags@), opt_view(i));
        let a = get(tags, "a");
        let d = get(tags, "d");
        let s = get(tags, "s");
        let h = get(tags, "h");
        let b = get(tags, "b");
        let bh = get(tags, "bh");
        let c = get(tags, "c");
        let z = get(tags, "z");
        let l = get(tags, "l");
        let x = get(tags, "x");
        let t = get(tags, "t");
        let r = get(tags, "r");
        let atps = get(tags, "atps");
        let atpsh = get(tags, "atpsh");
        let (a, d, s, h, b, bh) = match (a, d, s, h, b, bh) {
            (Some(a), Some(d), Some(s), Some(h), Some(b), Some(bh)) => (a, d, s, h, b, bh),
            _ => {
                return Err(Error::SignatureParseError);
            },
        };
        let a = match parse_algorithm(a) {
            Some(a) => a,
            None => {
                return Err(Error::UnsupportedAlgorithm);
            },
        };
        let (ch, cb) = match parse_canonicalization(c) {
            Some(pair) => pair,
            None => {
                return Err(Error::UnsupportedCanonicalization);
            },
        };
        let (b, bh) = match (decode(b), decode(bh)) {
            (Some(b), Some(bh)) => (b, bh),
            _ => {
                return Err(Error::SignatureParseError);
            },
        };
        let (d, s, i, atps, h, z) = match (
            text(d),
            text(s),
            optional_text(i),
            optional_text(atps),
            texts(Some(h), COLON),
            texts(z, BAR),
        ) {
            (Some(d), Some(s), Some(i), Some(atps), Some(h), Some(z)) => (d, s, i, atps, h, z),
            _ => {
                return Err(Error::SignatureParseError);
            },
        };
        let (l, x, t) = match (parse_number(l), parse_number(x), parse_number(t)) {
            (Some(l), Some(x), Some(t)) => (l, x, t),
            _ => {
                return Err(Error::SignatureParseError);
            },
        };
        let atpsh = match parse_atps_hash(atpsh) {
            Some(atpsh) => atpsh,
            None => {
                return Err(Error::UnsupportedAlgorithm);
            },
        };
        let r = match r {
            Some(r) => is_text(r, "y"),
            None => false,
        };
        let i = match i {
            Some(i) => i,
            None => String::new(),
        };
        if !is_identity_within(i.as_str().as_bytes(), d.as_str().as_bytes()) {
            return Err(Error::IdentityMismatch);
        }
        let sig = Signature { v: 1, a, d, s, b, bh, h, z, i, l, x, t, r, atps, atpsh, ch, cb };
        proof {
            assert(want is Ok);
            assert(sig@.i =~= want->Ok_0.i);
            assert(sig@.atps == want->Ok_0.atps);
            assert(sig@ == want->Ok_0);
        }
        Ok(sig)
    }

    /// Reads a DKIM-Signature header value.
    pub fn parse(value: &[u8]) -> (r: Result<Signature, Error>)
        ensures
            match r {
                Ok(sig) => signature_of(value@) == Ok::<SignatureView, Error>(sig@),
                Err(e) => signature_of(value@) == Err::<SignatureView, Error>(e),
            },
    {
        let tags = match parse_tags(value) {
            Some(tags) => tags,
            None => {
                return Err(Error::SignatureParseError);
            },
        };
        match get(&tags, "v") {
            Some(v) => {
                if !is_text(v, "1") {
                    return Err(Error::SignatureParseError);
                }
            },
            None => {
                return Err(Error::SignatureParseError);
            },
        }
        Signature::from_tags(&tags, get(&tags, "i"))
    }

    /// Reads an ARC-Message-Signature header value: its instance number and
    /// the signature it states.
    pub fn parse_arc(value: &[u8]) -> (r: Result<(u32, Signature), Error>)
        ensures
            match r {
                Ok((n, sig)) => message_signature_of(value@) == Ok::<(u32, SignatureView), Error>(
                    (n, sig@),
                ),
                Err(e) => message_signature_of(value@) == Err::<(u32, SignatureView), Error>(e),
            },
    {
        let tags = match parse_tags(value) {
            Some(tags) => tags,
            None => {
                return Err(Error::SignatureParseError);
            },
        };
        let n = match parse_instance(get(&tags, "i")) {
            Some(n) => n,
            None => {
                return Err(Error::SignatureParseError);
            },
        };
        match Signature::from_tags(&tags, None) {
            Ok(sig) => Ok((n, sig)),
            Err(e) => Err(e),
        }
    }
}

} // verus!
