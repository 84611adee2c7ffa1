//! The header block of a message: where its fields and its body are, and
//! which fields a signature's header list selects.

use vstd::prelude::*;
use vstd::slice::slice_subrange;
use vstd::utf8::encode_utf8;
use crate::dkim::canonicalize::{
    bytes_eq, canonical_header, canonicalize_header, is_wsp, lemma_relaxed_header_idempotent,
    lemma_relaxed_name_idempotent, relax_header_name, relaxed_header_name, relaxed_header_value,
    terminator, wsp, COLON, CR, LF,
};
use crate::dkim::Canonicalization;

verus! {

/// One header field: its name is what stands before the first colon, its
/// value is everything after it, folded lines and line terminator included.
#[derive(Debug, Clone, Copy, PartialEq, Eq)]
pub struct Header<'a> {
    pub name: &'a [u8],
    pub value: &'a [u8],
}

/// A message parted into its header fields and its body.
#[derive(Debug, Clone, PartialEq, Eq)]
pub struct Message<'a> {
    pub headers: Vec<Header<'a>>,
    pub body: &'a [u8],
}

/// A header field as a pair of byte sequences, name first.
pub type Field = (Seq<u8>, Seq<u8>);

/// The index after the first LF at or after `p`; the length if there is none.
pub open spec fn line_end(s: Seq<u8>, p: int) -> int
    decreases s.len() - p,
{
    if p < 0 || p >= s.len() {
        s.len() as int
    } else if s[p] == LF {
        p + 1
    } else {
        line_end(s, p + 1)
    }
}

/// The index at which the header field that starts at `p` ends: the end of
/// the first line from `p` on that is not followed by a space or a tab.
pub open spec fn field_end(s: Seq<u8>, p: int) -> int
    decreases s.len() - p,
{
    let e = line_end(s, p);
    if p < e < s.len() && is_wsp(s[e]) {
        field_end(s, e)
    } else {
        e
    }
}

/// The index of the first colon in `s` from `p` up to `e`; `e` if none.
pub open spec fn first_colon(s: Seq<u8>, p: int, e: int) -> int
    decreases e - p,
{
    if p >= e || p < 0 || p >= s.len() {
        e
    } else if s[p] == COLON {
        p
    } else {
        first_colon(s, p + 1, e)
    }
}

/// Whether an empty line starts at `p`.
pub open spec fn is_blank_at(s: Seq<u8>, p: int) -> bool {
    0 <= p < s.len() && (s[p] == LF || (s[p] == CR && p + 1 < s.len() && s[p + 1] == LF))
}

/// The header fields of `s` from `p` on, up to the first empty line. A line
/// without a colon is no header field and is passed over.
pub open spec fn fields_from(s: Seq<u8>, p: int) -> Seq<Field>
    decreases s.len() - p,
{
    if p < 0 || p >= s.len() || is_blank_at(s, p) {
        Seq::<Field>::empty()
    } else {
        let e = field_end(s, p);
        let c = first_colon(s, p, e);
        if e <= p || e > s.len() {
            Seq::<Field>::empty()
        } else if c < e {
            seq![(s.subrange(p, c), s.subrange(c + 1, e))] + fields_from(s, e)
        } else {
            fields_from(s, e)
        }
    }
}

/// The index at which the body starts when the header block starts at `p`:
/// after the first empty line, or at the end if there is none.
pub open spec fn body_from(s: Seq<u8>, p: int) -> int
    decreases s.len() - p,
{
    if p < 0 || p >= s.len() {
        s.len() as int
    } else if s[p] == LF {
        p + 1
    } else if s[p] == CR && p + 1 < s.len() && s[p + 1] == LF {
        p + 2
    } else {
        let e = field_end(s, p);
        if e <= p || e > s.len() {
            s.len() as int
        } else {
            body_from(s, e)
        }
    }
}

/// The header fields of a message, top to bottom.
pub open spec fn message_headers(raw: Seq<u8>) -> Seq<Field> {
    fields_from(raw, 0)
}

/// The body of a message.
pub open spec fn message_body(raw: Seq<u8>) -> Seq<u8> {
    raw.skip(body_from(raw, 0))
}

/// The fields that a vector of headers stands for.
pub open spec fn headers_view(v: Seq<Header<'_>>) -> Seq<Field> {
    Seq::new(v.len(), |i: int| (v[i].name@, v[i].value@))
}

/// Whether two header field names are the same name: case and white space
/// do not count.
pub open spec fn same_name(a: Seq<u8>, b: Seq<u8>) -> bool {
    relaxed_header_name(a) == relaxed_header_name(b)
}

/// How many of `names` are the name `name`.
pub open spec fn count_name(names: Seq<Seq<u8>>, name: Seq<u8>) -> nat
    decreases names.len(),
{
    if names.len() == 0 {
        0
    } else {
        count_name(names.drop_last(), name) + (if same_name(names.last(), name) {
            1nat
        } else {
            0nat
        })
    }
}

/// The index of the field named `name` that has exactly `skip` fields of
/// that name below it, if there is one.
pub open spec fn nth_from_bottom(headers: Seq<Field>, name: Seq<u8>, skip: nat) -> Option<int>
    decreases headers.len(),
{
    if headers.len() == 0 {
        None
    } else if same_name(headers.last().0, name) {
        if skip == 0 {
            Some(headers.len() - 1)
        } else {
            nth_from_bottom(headers.drop_last(), name, (skip - 1) as nat)
        }
    } else {
        nth_from_bottom(headers.drop_last(), name, skip)
    }
}

/// The index of the field that entry `j` of the header list `h` selects.
///
/// The first entry with a name selects the lowest field of that name, each
/// further entry with the same name the next one above it. An entry that
/// finds no field left selects nothing.
pub open spec fn selected(headers: Seq<Field>, h: Seq<Seq<u8>>, j: int) -> Option<int> {
    nth_from_bottom(headers, h[j], count_name(h.take(j), h[j]))
}

proof fn lemma_line_end_bounds(s: Seq<u8>, p: int)
    requires
        0 <= p < s.len(),
    ensures
        p < line_end(s, p) <= s.len(),
    decreases s.len() - p,
{
    if s[p] != LF {
        if p + 1 < s.len() {
            lemma_line_end_bounds(s, p + 1);
        } else {
            assert(line_end(s, p + 1) == s.len());
        }
    }
}

proof fn lemma_field_end_bounds(s: Seq<u8>, p: int)
    requires
        0 <= p < s.len(),
    ensures
        p < field_end(s, p) <= s.len(),
    decreases s.len() - p,
{
    lemma_line_end_bounds(s, p);
    let e = line_end(s, p);
    if e < s.len() && is_wsp(s[e]) {
        lemma_field_end_bounds(s, e);
    }
}

fn scan_line_end(raw: &[u8], p: usize) -> (e: usize)
    requires
        p < raw@.len(),
    ensures
        e == line_end(raw@, p as int),
        p < e <= raw@.len(),
{
    let mut q: usize = p;
    proof {
        lemma_line_end_bounds(raw@, p as int);
    }
    while q < raw.len() && raw[q] != LF
        invariant
            p <= q <= raw@.len(),
            line_end(raw@, q as int) == line_end(raw@, p as int),
        decreases raw@.len() - q,
    {
        q += 1;
    }
    if q < raw.len() {
        q + 1
    } else {
        q
    }
}

fn scan_field_end(raw: &[u8], p: usize) -> (e: usize)
    requires
        p < raw@.len(),
    ensures
        e == field_end(raw@, p as int),
        p < e <= raw@.len(),
{
    let mut e: usize = scan_line_end(raw, p);
    let ghost mut start: int = p as int;
    proof {
        lemma_field_end_bounds(raw@, p as int);
    }
    while e < raw.len() && wsp(raw[e])
        invariant
            p <= start < e <= raw@.len(),
            e == line_end(raw@, start),
            field_end(raw@, start) == field_end(raw@, p as int),
        decreases raw@.len() - e,
    {
        proof {
            start = e as int;
        }
        e = scan_line_end(raw, e);
    }
    e
}

fn scan_colon(raw: &[u8], p: usize, e: usize) -> (c: usize)
    requires
        p <= e <= raw@.len(),
    ensures
        c == first_colon(raw@, p as int, e as int),
        p <= c <= e,
{
    let mut q: usize = p;
    while q < e && raw[q] != COLON
        invariant
            p <= q <= e <= raw@.len(),
            first_colon(raw@, q as int, e as int) == first_colon(raw@, p as int, e as int),
        decreases e - q,
    {
        q += 1;
    }
    q
}

impl<'a> Message<'a> {
    /// Parts a message into its header fields and its body.
    pub fn parse(raw: &'a [u8]) -> (m: Message<'a>)
        ensures
            headers_view(m.headers@) == message_headers(raw@),
            m.body@ == message_body(raw@),
    {
        let mut headers: Vec<Header<'a>> = Vec::new();
        let mut p: usize = 0;
        let mut body_at: usize = raw.len();
        let mut open = true;
        proof {
            assert(headers_view(headers@) + fields_from(raw@, 0) =~= fields_from(raw@, 0));
        }
        while open && p < raw.len()
            invariant
                p <= raw@.len(),
                body_at <= raw@.len(),
                open ==> body_at == raw@.len(),
                open ==> headers_view(headers@) + fields_from(raw@, p as int) == fields_from(
                    raw@,
                    0,
                ),
                open ==> body_from(raw@, p as int) == body_from(raw@, 0),
                !open ==> headers_view(headers@) == fields_from(raw@, 0),
                !open ==> body_at == body_from(raw@, 0),
            decreases raw@.len() - p + (if open { 1int } else { 0int }),
        {
            let b = raw[p];
            if b == LF {
                proof {
                    assert(headers_view(headers@) + Seq::<Field>::empty() =~= headers_view(
                        headers@,
                    ));
                }
                body_at = p + 1;
                open = false;
            } else if b == CR && p + 1 < raw.len() && raw[p + 1] == LF {
                proof {
                    assert(headers_view(headers@) + Seq::<Field>::empty() =~= headers_view(
                        headers@,
                    ));
                }
                body_at = p + 2;
                open = false;
            } else {
                let e = scan_field_end(raw, p);
                let c = scan_colon(raw, p, e);
                let ghost before = headers_view(headers@);
                if c < e {
                    let header = Header {
                        name: slice_subrange(raw, p, c),
                        value: slice_subrange(raw, c + 1, e),
                    };
                    headers.push(header);
                    proof {
                        let field = (raw@.subrange(p as int, c as int), raw@.subrange(c + 1, e as int));
                        assert(headers_view(headers@) =~= before.push(field));
                        assert(before.push(field) + fields_from(raw@, e as int) =~= before + (
                        seq![field] + fields_from(raw@, e as int)));
                    }
                }
                p = e;
            }
        }
        proof {
            if open {
                assert(headers_view(headers@) + Seq::<Field>::empty() =~= headers_view(headers@));
            }
        }
        let body = slice_subrange(raw, body_at, raw.len());
        proof {
            assert(raw@.subrange(body_at as int, raw@.len() as int) =~= raw@.skip(body_at as int));
        }
        Message { headers, body }
    }
}

/// The names of a header list as bytes.
pub open spec fn name_bytes(h: Seq<String>) -> Seq<Seq<u8>> {
    Seq::new(h.len(), |j: int| encode_utf8(h[j]@))
}

/// The canonical form of the field that entry `j` of `h` selects; empty if
/// it selects none.
pub open spec fn selected_field(
    headers: Seq<Field>,
    h: Seq<Seq<u8>>,
    mode: Canonicalization,
    j: int,
) -> Seq<u8> {
    match selected(headers, h, j) {
        Some(i) => canonical_header(headers[i].0, headers[i].1, mode),
        None => Seq::<u8>::empty(),
    }
}

/// The canonical forms of the fields that the first `n` entries of `h`
/// select, in the order of `h`.
pub open spec fn signed_fields_upto(
    headers: Seq<Field>,
    h: Seq<Seq<u8>>,
    mode: Canonicalization,
    n: nat,
) -> Seq<u8>
    decreases n,
{
    if n == 0 {
        Seq::<u8>::empty()
    } else {
        signed_fields_upto(headers, h, mode, (n - 1) as nat) + selected_field(
            headers,
            h,
            mode,
            n - 1,
        )
    }
}

/// The canonical forms of all the fields that `h` selects, in the order of
/// `h`: what a signature covers of the header block.
pub open spec fn signed_fields(headers: Seq<Field>, h: Seq<Seq<u8>>, mode: Canonicalization) -> Seq<
    u8,
> {
    signed_fields_upto(headers, h, mode, h.len())
}

/// Whether two header field names are the same name.
pub fn names_match(a: &[u8], b: &[u8]) -> (r: bool)
    ensures
        r == same_name(a@, b@),
{
    let x = relax_header_name(a);
    let y = relax_header_name(b);
    bytes_eq(x.as_slice(), y.as_slice())
}

fn count_before(h: &Vec<String>, j: usize) -> (n: usize)
    requires
        j < h@.len(),
    ensures
        n == count_name(name_bytes(h@).take(j as int), name_bytes(h@)[j as int]),
{
    let ghost names = name_bytes(h@);
    let name = h[j].as_str().as_bytes();
    let mut n: usize = 0;
    let mut k: usize = 0;
    while k < j
        invariant
            k <= j < h@.len(),
            n <= k,
            names == name_bytes(h@),
            name@ == names[j as int],
            n == count_name(names.take(j as int).take(k as int), names[j as int]),
        decreases j - k,
    {
        proof {
            let upto = names.take(j as int).take(k + 1);
            assert(upto.drop_last() =~= names.take(j as int).take(k as int));
            assert(upto.last() == encode_utf8(h@[k as int]@));
        }
        if names_match(h[k].as_str().as_bytes(), name) {
            n += 1;
        }
        k += 1;
    }
    proof {
        assert(names.take(j as int).take(j as int) =~= names.take(j as int));
    }
    n
}

fn find_from_bottom(headers: &[Header<'_>], name: &[u8], skip: usize) -> (r: Option<usize>)
    ensures
        match r {
            Some(i) => i < headers@.len() && nth_from_bottom(headers_view(headers@), name@, skip as nat)
                == Some(i as int),
            None => nth_from_bottom(headers_view(headers@), name@, skip as nat) is None,
        },
{
    let ghost fields = headers_view(headers@);
    let mut i: usize = headers.len();
    let mut left: usize = skip;
    proof {
        assert(fields.take(i as int) =~= fields);
    }
    while i > 0
        invariant
            i <= headers@.len(),
            fields == headers_view(headers@),
            nth_from_bottom(fields.take(i as int), name@, left as nat) == nth_from_bottom(
                fields,
                name@,
                skip as nat,
            ),
        decreases i,
    {
        proof {
            let upto = fields.take(i as int);
            assert(upto.drop_last() =~= fields.take(i - 1));
            assert(upto.last().0 == headers@[i - 1].name@);
        }
        if names_match(headers[i - 1].name, name) {
            if left == 0 {
                return Some(i - 1);
            }
            left -= 1;
        }
        i -= 1;
    }
    None
}

/// The index of the field that entry `j` of the header list `h` selects.
pub fn select_header(headers: &[Header<'_>], h: &Vec<String>, j: usize) -> (r: Option<usize>)
    requires
        j < h@.len(),
    ensures
        match r {
            Some(i) => i < headers@.len() && selected(
                headers_view(headers@),
                name_bytes(h@),
                j as int,
            ) == Some(i as int),
            None => selected(headers_view(headers@), name_bytes(h@), j as int) is None,
        },
{
    let skip = count_before(h, j);
    find_from_bottom(headers, h[j].as_str().as_bytes(), skip)
}

/// The canonical forms of the fields that the header list `h` selects, in
/// the order of `h`.
pub fn canonicalize_signed_fields(
    headers: &[Header<'_>],
    h: &Vec<String>,
    mode: Canonicalization,
) -> (out: Vec<u8>)
    ensures
        out@ == signed_fields(headers_view(headers@), name_bytes(h@), mode),
{
    let ghost fields = headers_view(headers@);
    let ghost names = name_bytes(h@);
    let mut out: Vec<u8> = Vec::new();
    let mut j: usize = 0;
    while j < h.len()
        invariant
            j <= h@.len(),
            fields == headers_view(headers@),
            names == name_bytes(h@),
            out@ == signed_fields_upto(fields, names, mode, j as nat),
        decreases h@.len() - j,
    {
        match select_header(headers, h, j) {
            Some(i) => {
                let field = canonicalize_header(headers[i].name, headers[i].value, mode);
                out.extend_from_slice(field.as_slice());
            },
            None => {
                proof {
                    assert(out@ + Seq::<u8>::empty() =~= out@);
                }
            },
        }
        j += 1;
    }
    out
}

/// The header fields `headers`, each in relaxed form: the name and the
/// value that its relaxed canonical form has.
pub open spec fn relaxed_fields(headers: Seq<Field>) -> Seq<Field> {
    Seq::new(
        headers.len(),
        |k: int|
            (
                relaxed_header_name(headers[k].0),
                relaxed_header_value(headers[k].1) + terminator(headers[k].1),
            ),
    )
}

proof fn lemma_relaxed_fields_selected(headers: Seq<Field>, name: Seq<u8>, skip: nat)
    ensures
        nth_from_bottom(relaxed_fields(headers), name, skip) == nth_from_bottom(headers, name, skip),
        nth_from_bottom(headers, name, skip) is Some ==> 0 <= nth_from_bottom(
            headers,
            name,
            skip,
        )->0 < headers.len(),
    decreases headers.len(),
{
    if headers.len() > 0 {
        let relaxed = relaxed_fields(headers);
        assert(relaxed.drop_last() =~= relaxed_fields(headers.drop_last()));
        lemma_relaxed_name_idempotent(headers.last().0);
        assert(relaxed.last().0 == relaxed_header_name(headers.last().0));
        lemma_relaxed_fields_selected(headers.drop_last(), name, skip);
        if skip > 0 {
            lemma_relaxed_fields_selected(headers.drop_last(), name, (skip - 1) as nat);
        }
    }
}

/// A header block and its relaxed form are signed alike: under relaxed
/// canonicalization a header list selects the same bytes from header fields
/// and from their relaxed forms.
pub proof fn lemma_relaxed_fields_signed_alike(headers: Seq<Field>, h: Seq<Seq<u8>>, n: nat)
    requires
        n <= h.len(),
    ensures
        signed_fields_upto(relaxed_fields(headers), h, Canonicalization::Relaxed, n)
            == signed_fields_upto(headers, h, Canonicalization::Relaxed, n),
    decreases n,
{
    if n > 0 {
        lemma_relaxed_fields_signed_alike(headers, h, (n - 1) as nat);
        let j = n - 1;
        let skip = count_name(h.take(j), h[j]);
        lemma_relaxed_fields_selected(headers, h[j], skip);
        if selected(headers, h, j) is Some {
            let i = selected(headers, h, j)->0;
            lemma_relaxed_header_idempotent(headers[i].0, headers[i].1);
        }
        assert(selected_field(relaxed_fields(headers), h, Canonicalization::Relaxed, j)
            == selected_field(headers, h, Canonicalization::Relaxed, j));
    }
}

} // verus!
