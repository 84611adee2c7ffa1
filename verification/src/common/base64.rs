//! Base64, as signature bytes, body hashes and public keys are written.

use vstd::prelude::*;
use crate::dkim::canonicalize::is_fws;
use crate::dkim::parse::fws;

verus! {

/// The padding character, `=`.
pub const PAD: u8 = 61;

/// The six bits that a character of the alphabet stands for.
pub open spec fn sextet_of(c: u8) -> Option<u8> {
    if 65 <= c <= 90 {
        Some((c - 65) as u8)
    } else if 97 <= c <= 122 {
        Some((c - 71) as u8)
    } else if 48 <= c <= 57 {
        Some((c + 4) as u8)
    } else if c == 43 {
        Some(62)
    } else if c == 47 {
        Some(63)
    } else {
        None
    }
}

/// The character of the alphabet that stands for the six bits `v`.
pub open spec fn char_of(v: u8) -> u8 {
    if v < 26 {
        (v + 65) as u8
    } else if v < 52 {
        (v + 71) as u8
    } else if v < 62 {
        (v - 4) as u8
    } else if v == 62 {
        43
    } else {
        47
    }
}

/// `s` without its white space.
pub open spec fn without_fws(s: Seq<u8>) -> Seq<u8>
    decreases s.len(),
{
    if s.len() == 0 {
        s
    } else if is_fws(s.last()) {
        without_fws(s.drop_last())
    } else {
        without_fws(s.drop_last()).push(s.last())
    }
}

/// `s` without the padding characters at its end.
pub open spec fn without_padding(s: Seq<u8>) -> Seq<u8>
    decreases s.len(),
{
    if s.len() > 0 && s.last() == PAD {
        without_padding(s.drop_last())
    } else {
        s
    }
}

/// The six-bit values of the characters of `s`, if all are of the alphabet.
pub open spec fn sextets(s: Seq<u8>) -> Option<Seq<u8>>
    decreases s.len(),
{
    if s.len() == 0 {
        Some(Seq::<u8>::empty())
    } else {
        match (sextets(s.drop_last()), sextet_of(s.last())) {
            (Some(v), Some(x)) => Some(v.push(x)),
            _ => None,
        }
    }
}

/// The bytes that a sequence of six-bit values holds: three for each four
/// values, and one or two for two or three values at the end.
pub open spec fn bytes_of_sextets(v: Seq<u8>) -> Seq<u8>
    decreases v.len(),
{
    if v.len() < 2 {
        Seq::<u8>::empty()
    } else {
        let b0 = (v[0] * 4 + v[1] / 16) as u8;
        if v.len() == 2 {
            seq![b0]
        } else {
            let b1 = ((v[1] % 16) * 16 + v[2] / 4) as u8;
            if v.len() == 3 {
                seq![b0, b1]
            } else {
                let b2 = ((v[2] % 4) * 64 + v[3]) as u8;
                seq![b0, b1, b2] + bytes_of_sextets(v.skip(4))
            }
        }
    }
}

/// The six-bit values that hold `data`: four for each three bytes, and two
/// or three for one or two bytes at the end.
pub open spec fn sextets_of_bytes(data: Seq<u8>) -> Seq<u8>
    decreases data.len(),
{
    if data.len() == 0 {
        Seq::<u8>::empty()
    } else {
        let s0 = (data[0] / 4) as u8;
        if data.len() == 1 {
            seq![s0, ((data[0] % 4) * 16) as u8]
        } else {
            let s1 = ((data[0] % 4) * 16 + data[1] / 16) as u8;
            if data.len() == 2 {
                seq![s0, s1, ((data[1] % 16) * 4) as u8]
            } else {
                let s2 = ((data[1] % 16) * 4 + data[2] / 64) as u8;
                seq![s0, s1, s2, (data[2] % 64) as u8] + sextets_of_bytes(data.skip(3))
            }
        }
    }
}

/// How many padding characters end the encoding of `n` bytes.
pub open spec fn padding_len(n: nat) -> nat {
    ((3 - n % 3) % 3) as nat
}

/// The bytes that the Base64 text `s` stands for.
///
/// White space anywhere is passed over. Up to two padding characters may
/// end the text; if there are any, they must fill it to a multiple of four.
pub open spec fn base64_decode(s: Seq<u8>) -> Option<Seq<u8>> {
    let t = without_fws(s);
    let data = without_padding(t);
    let pad = t.len() - data.len();
    if pad > 2 || data.len() % 4 == 1 || (pad > 0 && t.len() % 4 != 0) {
        None
    } else {
        match sextets(data) {
            Some(v) => Some(bytes_of_sextets(v)),
            None => None,
        }
    }
}

/// The Base64 text for `data`, padded to a multiple of four characters.
pub open spec fn base64_encode(data: Seq<u8>) -> Seq<u8> {
    let v = sextets_of_bytes(data);
    Seq::new(v.len(), |i: int| char_of(v[i])) + Seq::new(padding_len(data.len()), |i: int| PAD)
}

/// Whether every value of `v` fits in six bits.
pub open spec fn all_sextets(v: Seq<u8>) -> bool {
    forall|k: int| 0 <= k < v.len() ==> #[trigger] v[k] < 64
}

proof fn lemma_sextets_shape(s: Seq<u8>)
    ensures
        sextets(s) is Some ==> sextets(s)->0.len() == s.len() && all_sextets(sextets(s)->0),
    decreases s.len(),
{
    if s.len() > 0 {
        lemma_sextets_shape(s.drop_last());
    }
}

proof fn lemma_sextets_prefix(s: Seq<u8>, n: int)
    requires
        0 <= n <= s.len(),
        sextets(s.take(n)) is None,
    ensures
        sextets(s) is None,
    decreases s.len() - n,
{
    if n < s.len() {
        assert(s.take(n + 1).drop_last() =~= s.take(n));
        lemma_sextets_prefix(s, n + 1);
    } else {
        assert(s.take(n) =~= s);
    }
}

proof fn lemma_sextets_of_bytes_shape(data: Seq<u8>)
    ensures
        all_sextets(sextets_of_bytes(data)),
        data.len() % 3 == 0 ==> sextets_of_bytes(data).len() == data.len() / 3 * 4,
        data.len() % 3 == 1 ==> sextets_of_bytes(data).len() == data.len() / 3 * 4 + 2,
        data.len() % 3 == 2 ==> sextets_of_bytes(data).len() == data.len() / 3 * 4 + 3,
    decreases data.len(),
{
    if data.len() >= 3 {
        lemma_sextets_of_bytes_shape(data.skip(3));
    }
}

proof fn lemma_bytes_of_sextets_of_bytes(data: Seq<u8>)
    ensures
        bytes_of_sextets(sextets_of_bytes(data)) == data,
    decreases data.len(),
{
    let v = sextets_of_bytes(data);
    if data.len() >= 3 {
        let rest = data.skip(3);
        lemma_bytes_of_sextets_of_bytes(rest);
        assert(v.skip(4) =~= sextets_of_bytes(rest));
        assert(bytes_of_sextets(v) =~= seq![data[0], data[1], data[2]] + rest);
        assert(seq![data[0], data[1], data[2]] + rest =~= data);
    } else {
        assert(bytes_of_sextets(v) =~= data);
    }
}

proof fn lemma_sextets_of_chars(v: Seq<u8>)
    requires
        all_sextets(v),
    ensures
        sextets(Seq::new(v.len(), |i: int| char_of(v[i]))) == Some(v),
    decreases v.len(),
{
    let chars = Seq::new(v.len(), |i: int| char_of(v[i]));
    if v.len() > 0 {
        let shorter = v.drop_last();
        assert(all_sextets(shorter)) by {
            assert forall|k: int| 0 <= k < shorter.len() implies #[trigger] shorter[k] < 64 by {
                assert(shorter[k] == v[k]);
            }
        }
        lemma_sextets_of_chars(shorter);
        assert(chars.drop_last() =~= Seq::new(shorter.len(), |i: int| char_of(shorter[i])));
        assert(v[v.len() - 1] < 64);
        assert(sextet_of(chars.last()) == Some(v.last()));
        assert(shorter.push(v.last()) =~= v);
    } else {
        assert(v =~= Seq::<u8>::empty());
    }
}

proof fn lemma_without_fws_fixed(s: Seq<u8>)
    requires
        forall|k: int| 0 <= k < s.len() ==> !is_fws(#[trigger] s[k]),
    ensures
        without_fws(s) == s,
    decreases s.len(),
{
    if s.len() > 0 {
        let shorter = s.drop_last();
        assert forall|k: int| 0 <= k < shorter.len() implies !is_fws(#[trigger] shorter[k]) by {
            assert(shorter[k] == s[k]);
        }
        lemma_without_fws_fixed(shorter);
        assert(!is_fws(s[s.len() - 1]));
        assert(shorter.push(s.last()) =~= s);
    }
}

proof fn lemma_without_padding_added(a: Seq<u8>, n: nat)
    requires
        a.len() == 0 || a.last() != PAD,
    ensures
        without_padding(a + Seq::new(n, |i: int| PAD)) == a,
    decreases n,
{
    let padded = a + Seq::new(n, |i: int| PAD);
    if n == 0 {
        assert(padded =~= a);
    } else {
        assert(padded.last() == PAD);
        assert(padded.drop_last() =~= a + Seq::new((n - 1) as nat, |i: int| PAD));
        lemma_without_padding_added(a, (n - 1) as nat);
    }
}

/// Base64 text is made of the characters of the alphabet and of padding.
pub proof fn lemma_encoded_chars(data: Seq<u8>)
    ensures
        forall|k: int|
            0 <= k < base64_encode(data).len() ==> sextet_of(#[trigger] base64_encode(data)[k])
                is Some || base64_encode(data)[k] == PAD,
{
    let v = sextets_of_bytes(data);
    lemma_sextets_of_bytes_shape(data);
    assert forall|k: int| 0 <= k < base64_encode(data).len() implies sextet_of(
        #[trigger] base64_encode(data)[k],
    ) is Some || base64_encode(data)[k] == PAD by {
        if k < v.len() {
            assert(v[k] < 64);
            assert(base64_encode(data)[k] == char_of(v[k]));
        }
    }
}

/// Decoding undoes encoding: the Base64 text for `data` stands for `data`.
pub proof fn lemma_decode_encode(data: Seq<u8>)
    ensures
        base64_decode(base64_encode(data)) == Some(data),
{
    let v = sextets_of_bytes(data);
    let chars = Seq::new(v.len(), |i: int| char_of(v[i]));
    let pad = Seq::new(padding_len(data.len()), |i: int| PAD);
    let text = base64_encode(data);
    lemma_sextets_of_bytes_shape(data);
    assert forall|k: int| 0 <= k < text.len() implies !is_fws(#[trigger] text[k]) by {
        if k < chars.len() {
            assert(v[k] < 64);
            assert(text[k] == char_of(v[k]));
        }
    }
    lemma_without_fws_fixed(text);
    if chars.len() > 0 {
        assert(v[v.len() - 1] < 64);
        assert(chars.last() == char_of(v[v.len() - 1]));
    }
    lemma_without_padding_added(chars, padding_len(data.len()));
    lemma_sextets_of_chars(v);
    lemma_bytes_of_sextets_of_bytes(data);
}

fn strip_fws(s: &[u8]) -> (out: Vec<u8>)
    ensures
        out@ == without_fws(s@),
{
    let mut out: Vec<u8> = Vec::new();
    let mut i: usize = 0;
    while i < s.len()
        invariant
            i <= s@.len(),
            out@ == without_fws(s@.take(i as int)),
        decreases s@.len() - i,
    {
        let b = s[i];
        proof {
            let upto = s@.take(i + 1);
            assert(upto.drop_last() =~= s@.take(i as int));
            assert(upto.last() == b);
        }
        if !fws(b) {
            out.push(b);
        }
        i += 1;
    }
    proof {
        assert(s@.take(s@.len() as int) =~= s@);
    }
    out
}

fn data_len(t: &Vec<u8>) -> (n: usize)
    ensures
        n <= t@.len(),
        t@.take(n as int) == without_padding(t@),
{
    let mut n: usize = t.len();
    proof {
        assert(t@.take(n as int) =~= t@);
    }
    while n > 0 && t[n - 1] == PAD
        invariant
            n <= t@.len(),
            without_padding(t@.take(n as int)) == without_padding(t@),
        decreases n,
    {
        proof {
            assert(t@.take(n as int).drop_last() =~= t@.take(n - 1));
        }
        n -= 1;
    }
    n
}

fn sextet(c: u8) -> (r: Option<u8>)
    ensures
        r == sextet_of(c),
{
    if 65 <= c && c <= 90 {
        Some(c - 65)
    } else if 97 <= c && c <= 122 {
        Some(c - 71)
    } else if 48 <= c && c <= 57 {
        Some(c + 4)
    } else if c == 43 {
        Some(62)
    } else if c == 47 {
        Some(63)
    } else {
        None
    }
}

fn to_char(v: u8) -> (r: u8)
    requires
        v < 64,
    ensures
        r == char_of(v),
{
    if v < 26 {
        v + 65
    } else if v < 52 {
        v + 71
    } else if v < 62 {
        v - 4
    } else if v == 62 {
        43
    } else {
        47
    }
}

fn to_sextets(t: &Vec<u8>, n: usize) -> (r: Option<Vec<u8>>)
    requires
        n <= t@.len(),
    ensures
        match r {
            Some(v) => sextets(t@.take(n as int)) == Some(v@) && all_sextets(v@) && v@.len() == n,
            None => sextets(t@.take(n as int)) is None,
        },
{
    let ghost data = t@.take(n as int);
    let mut v: Vec<u8> = Vec::new();
    let mut i: usize = 0;
    while i < n
        invariant
            i <= n <= t@.len(),
            data == t@.take(n as int),
            sextets(data.take(i as int)) == Some(v@),
        decreases n - i,
    {
        proof {
            let upto = data.take(i + 1);
            assert(upto.drop_last() =~= data.take(i as int));
            assert(upto.last() == t@[i as int]);
        }
        match sextet(t[i]) {
            Some(x) => {
                v.push(x);
            },
            None => {
                proof {
                    lemma_sextets_prefix(data, i + 1);
                }
                return None;
            },
        }
        i += 1;
    }
    proof {
        assert(data.take(n as int) =~= data);
        lemma_sextets_shape(data);
    }
    Some(v)
}

fn to_bytes(v: &Vec<u8>) -> (out: Vec<u8>)
    requires
        all_sextets(v@),
    ensures
        out@ == bytes_of_sextets(v@),
{
    let mut out: Vec<u8> = Vec::new();
    let mut i: usize = 0;
    proof {
        assert(v@.skip(0) =~= v@);
        assert(out@ + bytes_of_sextets(v@) =~= bytes_of_sextets(v@));
    }
    while v.len() - i >= 4
        invariant
            i <= v@.len(),
            all_sextets(v@),
            out@ + bytes_of_sextets(v@.skip(i as int)) == bytes_of_sextets(v@),
        decreases v@.len() - i,
    {
        let ghost before = out@;
        let ghost tail = v@.skip(i as int);
        proof {
            assert(tail.skip(4) =~= v@.skip(i + 4));
            assert(v@[i as int] < 64 && v@[i + 1] < 64 && v@[i + 2] < 64 && v@[i + 3] < 64);
        }
        let b0: u8 = v[i] * 4 + v[i + 1] / 16;
        let b1: u8 = (v[i + 1] % 16) * 16 + v[i + 2] / 4;
        let b2: u8 = (v[i + 2] % 4) * 64 + v[i + 3];
        out.push(b0);
        out.push(b1);
        out.push(b2);
        proof {
            assert(out@ =~= before + seq![b0, b1, b2]);
            assert(before + (seq![b0, b1, b2] + bytes_of_sextets(tail.skip(4))) =~= (before
                + seq![b0, b1, b2]) + bytes_of_sextets(tail.skip(4)));
        }
        i += 4;
    }
    let ghost before = out@;
    let ghost tail = v@.skip(i as int);
    let left = v.len() - i;
    if left >= 2 {
        proof {
            assert(v@[i as int] < 64 && v@[i + 1] < 64);
        }
        let b0: u8 = v[i] * 4 + v[i + 1] / 16;
        out.push(b0);
        if left == 3 {
            proof {
                assert(v@[i + 2] < 64);
            }
            let b1: u8 = (v[i + 1] % 16) * 16 + v[i + 2] / 4;
            out.push(b1);
            proof {
                assert(out@ =~= before + seq![b0, b1]);
            }
        } else {
            proof {
                assert(out@ =~= before + seq![b0]);
            }
        }
    } else {
        proof {
            assert(before + Seq::<u8>::empty() =~= before);
        }
    }
    out
}

/// The bytes that the Base64 text `s` stands for, or `None` if `s` is no
/// Base64 text.
pub fn decode(s: &[u8]) -> (r: Option<Vec<u8>>)
    ensures
        match r {
            Some(bytes) => base64_decode(s@) == Some(bytes@),
            None => base64_decode(s@) is None,
        },
{
    let t = strip_fws(s);
    let n = data_len(&t);
    let pad = t.len() - n;
    if pad > 2 || n % 4 == 1 || (pad > 0 && t.len() % 4 != 0) {
        return None;
    }
    match to_sextets(&t, n) {
        Some(v) => Some(to_bytes(&v)),
        None => None,
    }
}

fn from_bytes(data: &[u8]) -> (v: Vec<u8>)
    ensures
        v@ == sextets_of_bytes(data@),
{
    let mut v: Vec<u8> = Vec::new();
    let mut i: usize = 0;
    proof {
        assert(data@.skip(0) =~= data@);
        assert(v@ + sextets_of_bytes(data@) =~= sextets_of_bytes(data@));
    }
    while data.len() - i >= 3
        invariant
            i <= data@.len(),
            v@ + sextets_of_bytes(data@.skip(i as int)) == sextets_of_bytes(data@),
        decreases data@.len() - i,
    {
        let ghost before = v@;
        let ghost tail = data@.skip(i as int);
        proof {
            assert(tail.skip(3) =~= data@.skip(i + 3));
        }
        let s0: u8 = data[i] / 4;
        let s1: u8 = (data[i] % 4) * 16 + data[i + 1] / 16;
        let s2: u8 = (data[i + 1] % 16) * 4 + data[i + 2] / 64;
        let s3: u8 = data[i + 2] % 64;
        v.push(s0);
        v.push(s1);
        v.push(s2);
        v.push(s3);
        proof {
            assert(v@ =~= before + seq![s0, s1, s2, s3]);
            assert(before + (seq![s0, s1, s2, s3] + sextets_of_bytes(tail.skip(3))) =~= (before
                + seq![s0, s1, s2, s3]) + sextets_of_bytes(tail.skip(3)));
        }
        i += 3;
    }
    let ghost before = v@;
    let left = data.len() - i;
    if left >= 1 {
        let s0: u8 = data[i] / 4;
        v.push(s0);
        if left == 2 {
            let s1: u8 = (data[i] % 4) * 16 + data[i + 1] / 16;
            let s2: u8 = (data[i + 1] % 16) * 4;
            v.push(s1);
            v.push(s2);
            proof {
                assert(v@ =~= before + seq![s0, s1, s2]);
            }
        } else {
            let s1: u8 = (data[i] % 4) * 16;
            v.push(s1);
            proof {
                assert(v@ =~= before + seq![s0, s1]);
            }
        }
    } else {
        proof {
            assert(before + Seq::<u8>::empty() =~= before);
        }
    }
    v
}

/// The Base64 text for `data`.
pub fn encode(data: &[u8]) -> (out: Vec<u8>)
    ensures
        out@ == base64_encode(data@),
{
    let v = from_bytes(data);
    proof {
        lemma_sextets_of_bytes_shape(data@);
    }
    let mut out: Vec<u8> = Vec::new();
    let mut i: usize = 0;
    while i < v.len()
        invariant
            i <= v@.len(),
            all_sextets(v@),
            out@ == Seq::new(i as nat, |k: int| char_of(v@[k])),
        decreases v@.len() - i,
    {
        let ghost before = out@;
        let c = to_char(v[i]);
        out.push(c);
        proof {
            assert(out@ =~= Seq::new((i + 1) as nat, |k: int| char_of(v@[k])));
        }
        i += 1;
    }
    let ghost chars = out@;
    let pad: usize = (3 - data.len() % 3) % 3;
    let mut j: usize = 0;
    while j < pad
        invariant
            j <= pad,
            out@ == chars + Seq::new(j as nat, |k: int| PAD),
        decreases pad - j,
    {
        out.push(PAD);
        proof {
            assert(out@ =~= chars + Seq::new((j + 1) as nat, |k: int| PAD));
        }
        j += 1;
    }
    proof {
        assert(out@ =~= base64_encode(data@));
    }
    out
}

} // verus!
