//! Base32 without padding, as the labels of ATPS query names are written.

use vstd::prelude::*;

verus! {

/// The character that stands for the five bits `v`: a lower-case letter or
/// one of the digits 2 to 7.
pub open spec fn char_of(v: u8) -> u8 {
    if v < 26 {
        (v + 97) as u8
    } else {
        (v + 24) as u8
    }
}

/// The five-bit values that hold `data`: eight for each five bytes, and two,
/// four, five or seven for one, two, three or four bytes at the end, the
/// bits that no byte fills being 0.
pub open spec fn quintets_of_bytes(data: Seq<u8>) -> Seq<u8>
    decreases data.len(),
{
    if data.len() == 0 {
        Seq::<u8>::empty()
    } else {
        let b0 = data[0];
        let b1 = if data.len() > 1 { data[1] } else { 0 };
        let b2 = if data.len() > 2 { data[2] } else { 0 };
        let b3 = if data.len() > 3 { data[3] } else { 0 };
        let b4 = if data.len() > 4 { data[4] } else { 0 };
        let all = seq![
            (b0 / 8) as u8,
            ((b0 % 8) * 4 + b1 / 64) as u8,
            ((b1 / 2) % 32) as u8,
            ((b1 % 2) * 16 + b2 / 16) as u8,
            ((b2 % 16) * 2 + b3 / 128) as u8,
            ((b3 / 4) % 32) as u8,
            ((b3 % 4) * 8 + b4 / 32) as u8,
            (b4 % 32) as u8,
        ];
        if data.len() == 1 {
            all.take(2)
        } else if data.len() == 2 {
            all.take(4)
        } else if data.len() == 3 {
            all.take(5)
        } else if data.len() == 4 {
            all.take(7)
        } else {
            all + quintets_of_bytes(data.skip(5))
        }
    }
}

/// The Base32 text for `data`, without padding.
pub open spec fn base32_encode(data: Seq<u8>) -> Seq<u8> {
    let v = quintets_of_bytes(data);
    Seq::new(v.len(), |i: int| char_of(v[i]))
}

/// Whether every value of `v` fits in five bits.
pub open spec fn all_quintets(v: Seq<u8>) -> bool {
    forall|k: int| 0 <= k < v.len() ==> #[trigger] v[k] < 32
}

proof fn lemma_quintets_shape(data: Seq<u8>)
    ensures
        all_quintets(quintets_of_bytes(data)),
    decreases data.len(),
{
    if data.len() >= 5 {
        lemma_quintets_shape(data.skip(5));
    }
}

fn byte_at(data: &[u8], i: usize, d: usize) -> (r: u8)
    requires
        i < data@.len(),
    ensures
        r == (if i + d < data@.len() { data@[i + d] } else { 0u8 }),
{
    if d < data.len() - i {
        data[i + d]
    } else {
        0
    }
}

fn quintets(data: &[u8]) -> (v: Vec<u8>)
    ensures
        v@ == quintets_of_bytes(data@),
{
    let mut v: Vec<u8> = Vec::new();
    let mut i: usize = 0;
    proof {
        assert(data@.skip(0) =~= data@);
        assert(v@ + quintets_of_bytes(data@) =~= quintets_of_bytes(data@));
    }
    while i < data.len()
        invariant
            i <= data@.len(),
            v@ + quintets_of_bytes(data@.skip(i as int)) == quintets_of_bytes(data@),
        decreases data@.len() - i,
    {
        let ghost before = v@;
        let ghost tail = data@.skip(i as int);
        let left = data.len() - i;
        let b0 = data[i];
        let b1 = byte_at(data, i, 1);
        let b2 = byte_at(data, i, 2);
        let b3 = byte_at(data, i, 3);
        let b4 = byte_at(data, i, 4);
        let ghost all = seq![
            (b0 / 8) as u8,
            ((b0 % 8) * 4 + b1 / 64) as u8,
            ((b1 / 2) % 32) as u8,
            ((b1 % 2) * 16 + b2 / 16) as u8,
            ((b2 % 16) * 2 + b3 / 128) as u8,
            ((b3 / 4) % 32) as u8,
            ((b3 % 4) * 8 + b4 / 32) as u8,
            (b4 % 32) as u8,
        ];
        v.push(b0 / 8);
        v.push((b0 % 8) * 4 + b1 / 64);
        if left > 1 {
            v.push((b1 / 2) % 32);
            v.push((b1 % 2) * 16 + b2 / 16);
        }
        if left > 2 {
            v.push((b2 % 16) * 2 + b3 / 128);
        }
        if left > 3 {
            v.push((b3 / 4) % 32);
            v.push((b3 % 4) * 8 + b4 / 32);
        }
        if left > 4 {
            v.push(b4 % 32);
            proof {
                assert(tail.skip(5) =~= data@.skip(i + 5));
                assert(v@ =~= before + all);
                assert(before + (all + quintets_of_bytes(tail.skip(5))) =~= (before + all)
                    + quintets_of_bytes(tail.skip(5)));
            }
            i += 5;
        } else {
            proof {
                let n: int = if left == 1 { 2 } else if left == 2 { 4 } else if left == 3 { 5 } else { 7 };
                assert(v@ =~= before + all.take(n));
            }
            i = data.len();
            proof {
                assert(quintets_of_bytes(data@.skip(i as int)) =~= Seq::<u8>::empty());
                assert(v@ + Seq::<u8>::empty() =~= v@);
            }
        }
    }
    proof {
        assert(quintets_of_bytes(data@.skip(i as int)) =~= Seq::<u8>::empty());
        assert(v@ + Seq::<u8>::empty() =~= v@);
    }
    v
}

/// The Base32 text for `data`, without padding.
pub fn encode(data: &[u8]) -> (out: Vec<u8>)
    ensures
        out@ == base32_encode(data@),
{
    let v = quintets(data);
    proof {
        lemma_quintets_shape(data@);
    }
    let mut out: Vec<u8> = Vec::new();
    let mut i: usize = 0;
    while i < v.len()
        invariant
            i <= v@.len(),
            all_quintets(v@),
            out@ == Seq::new(i as nat, |k: int| char_of(v@[k])),
        decreases v@.len() - i,
    {
        let x = v[i];
        let c = if x < 26 {
            x + 97
        } else {
            x + 24
        };
        out.push(c);
        proof {
            assert(out@ =~= Seq::new((i + 1) as nat, |k: int| char_of(v@[k])));
        }
        i += 1;
    }
    out
}

} // verus!
