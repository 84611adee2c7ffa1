//! Canonical forms of header fields and message bodies.
//!
//! Both forms first normalize line endings: every CR is dropped and every LF
//! ends a line, so that CRLF and bare LF are read alike and a stray CR never
//! reaches a hash.

use vstd::prelude::*;
use crate::dkim::Canonicalization;

verus! {

/// Carriage return.
pub const CR: u8 = 13;

/// Line feed.
pub const LF: u8 = 10;

/// Space.
pub const SP: u8 = 32;

/// Horizontal tab.
pub const TAB: u8 = 9;

/// Colon, which parts a header field's name from its value.
pub const COLON: u8 = 58;

/// Whether `b` is a space or a tab.
pub open spec fn is_wsp(b: u8) -> bool {
    b == SP || b == TAB
}

/// Whether `b` is a space, a tab, a carriage return or a line feed.
pub open spec fn is_fws(b: u8) -> bool {
    is_wsp(b) || b == CR || b == LF
}

/// The lower-case form of an ASCII letter; any other byte unchanged.
pub open spec fn lower(b: u8) -> u8 {
    if 65 <= b <= 90 {
        (b + 32) as u8
    } else {
        b
    }
}

/// `s` with every byte put into lower case.
pub open spec fn lower_seq(s: Seq<u8>) -> Seq<u8> {
    Seq::new(s.len(), |i: int| lower(s[i]))
}

/// The lines of `s`. Every CR is dropped and every LF ends a line; the last
/// line is what follows the last LF, so there is always at least one line.
pub open spec fn split_lines(s: Seq<u8>) -> Seq<Seq<u8>>
    decreases s.len(),
{
    if s.len() == 0 {
        seq![Seq::<u8>::empty()]
    } else {
        let before = split_lines(s.drop_last());
        let b = s.last();
        if b == LF {
            before.push(Seq::<u8>::empty())
        } else if b == CR {
            before
        } else {
            before.update(before.len() - 1, before.last().push(b))
        }
    }
}

/// `l` with every run of spaces and tabs replaced by one space.
pub open spec fn collapse_wsp(l: Seq<u8>) -> Seq<u8>
    decreases l.len(),
{
    if l.len() == 0 {
        l
    } else {
        let before = collapse_wsp(l.drop_last());
        let b = l.last();
        if !is_wsp(b) {
            before.push(b)
        } else if l.len() >= 2 && is_wsp(l[l.len() - 2]) {
            before
        } else {
            before.push(SP)
        }
    }
}

/// `l` without the spaces and tabs at its end.
pub open spec fn strip_trailing_wsp(l: Seq<u8>) -> Seq<u8>
    decreases l.len(),
{
    if l.len() > 0 && is_wsp(l.last()) {
        strip_trailing_wsp(l.drop_last())
    } else {
        l
    }
}

/// `l` without the spaces and tabs at its start.
pub open spec fn strip_leading_wsp(l: Seq<u8>) -> Seq<u8>
    decreases l.len(),
{
    if l.len() > 0 && is_wsp(l[0]) {
        strip_leading_wsp(l.drop_first())
    } else {
        l
    }
}

/// A body line in relaxed form: runs of white space collapsed to one space,
/// white space at the end of the line removed.
pub open spec fn relaxed_line(l: Seq<u8>) -> Seq<u8> {
    strip_trailing_wsp(collapse_wsp(l))
}

/// `lines` without the empty lines at its end.
pub open spec fn drop_trailing_empty(lines: Seq<Seq<u8>>) -> Seq<Seq<u8>>
    decreases lines.len(),
{
    if lines.len() > 0 && lines.last().len() == 0 {
        drop_trailing_empty(lines.drop_last())
    } else {
        lines
    }
}

/// Every line of `lines` followed by CRLF.
pub open spec fn join_crlf(lines: Seq<Seq<u8>>) -> Seq<u8>
    decreases lines.len(),
{
    if lines.len() == 0 {
        Seq::<u8>::empty()
    } else {
        join_crlf(lines.drop_last()) + lines.last() + seq![CR, LF]
    }
}

/// Each of `lines` in relaxed form.
pub open spec fn relaxed_lines(lines: Seq<Seq<u8>>) -> Seq<Seq<u8>> {
    lines.map_values(|l: Seq<u8>| relaxed_line(l))
}

/// The lines of the canonical body: the lines of `body`, each in relaxed form
/// if `mode` is relaxed, without the empty lines at the end.
pub open spec fn body_lines(body: Seq<u8>, mode: Canonicalization) -> Seq<Seq<u8>> {
    let lines = split_lines(body);
    drop_trailing_empty(
        match mode {
            Canonicalization::Simple => lines,
            Canonicalization::Relaxed => relaxed_lines(lines),
        },
    )
}

/// The canonical form of a message body.
///
/// Each line that is kept ends in CRLF. A body without content is a single
/// CRLF in simple form and empty in relaxed form.
pub open spec fn canonical_body(body: Seq<u8>, mode: Canonicalization) -> Seq<u8> {
    let lines = body_lines(body, mode);
    if lines.len() == 0 && mode == Canonicalization::Simple {
        seq![CR, LF]
    } else {
        join_crlf(lines)
    }
}

/// `s` with every CR dropped and every LF replaced by CRLF.
pub open spec fn normalize_line_endings(s: Seq<u8>) -> Seq<u8>
    decreases s.len(),
{
    if s.len() == 0 {
        s
    } else {
        let before = normalize_line_endings(s.drop_last());
        let b = s.last();
        if b == LF {
            before.push(CR).push(LF)
        } else if b == CR {
            before
        } else {
            before.push(b)
        }
    }
}

/// `s` without its CR and LF bytes: a folded header value on one line.
pub open spec fn unfold(s: Seq<u8>) -> Seq<u8>
    decreases s.len(),
{
    if s.len() == 0 {
        s
    } else if s.last() == CR || s.last() == LF {
        unfold(s.drop_last())
    } else {
        unfold(s.drop_last()).push(s.last())
    }
}

/// A header field name in relaxed form: white space removed, lower case.
pub open spec fn relaxed_header_name(name: Seq<u8>) -> Seq<u8>
    decreases name.len(),
{
    if name.len() == 0 {
        name
    } else if is_fws(name.last()) {
        relaxed_header_name(name.drop_last())
    } else {
        relaxed_header_name(name.drop_last()).push(lower(name.last()))
    }
}

/// A header field value in relaxed form: unfolded, runs of white space
/// collapsed to one space, no white space at either end.
pub open spec fn relaxed_header_value(value: Seq<u8>) -> Seq<u8> {
    strip_leading_wsp(relaxed_line(unfold(value)))
}

/// Whether a header field value carries its line terminator.
pub open spec fn is_terminated(value: Seq<u8>) -> bool {
    value.len() > 0 && value.last() == LF
}

/// The canonical form of one header field.
///
/// In simple form the field passes through with its line endings normalized.
/// In relaxed form the terminator (CRLF) is kept exactly if the value had one.
pub open spec fn canonical_header(name: Seq<u8>, value: Seq<u8>, mode: Canonicalization) -> Seq<u8> {
    match mode {
        Canonicalization::Simple => name + seq![COLON] + normalize_line_endings(value),
        Canonicalization::Relaxed => relaxed_header_name(name) + seq![COLON]
            + relaxed_header_value(value) + (if is_terminated(value) {
            seq![CR, LF]
        } else {
            Seq::<u8>::empty()
        }),
    }
}

/// Whether `l` holds neither CR nor LF.
pub open spec fn is_line(l: Seq<u8>) -> bool {
    forall|k: int| 0 <= k < l.len() ==> l[k] != CR && l[k] != LF
}

/// Whether each of `lines` holds neither CR nor LF.
pub open spec fn all_lines(lines: Seq<Seq<u8>>) -> bool {
    forall|j: int| 0 <= j < lines.len() ==> is_line(#[trigger] lines[j])
}

/// Whether `l` holds no tab and no two spaces in a row.
pub open spec fn is_collapsed(l: Seq<u8>) -> bool {
    &&& forall|k: int| 0 <= k < l.len() ==> l[k] != TAB
    &&& forall|k: int| 0 < k < l.len() ==> !(l[k - 1] == SP && #[trigger] l[k] == SP)
}

/// The view of a vector of lines.
pub open spec fn lines_view(v: Seq<Vec<u8>>) -> Seq<Seq<u8>> {
    v.map_values(|x: Vec<u8>| x@)
}

proof fn lemma_split_lines_shape(s: Seq<u8>)
    ensures
        split_lines(s).len() >= 1,
        all_lines(split_lines(s)),
    decreases s.len(),
{
    if s.len() > 0 {
        lemma_split_lines_shape(s.drop_last());
        let before = split_lines(s.drop_last());
        let after = split_lines(s);
        assert forall|j: int| 0 <= j < after.len() implies is_line(#[trigger] after[j]) by {
            if j < before.len() {
                assert(is_line(before[j]));
            }
        }
    } else {
        assert(is_line(split_lines(s)[0]));
    }
}

proof fn lemma_split_append_line(a: Seq<u8>, l: Seq<u8>)
    requires
        is_line(l),
    ensures
        split_lines(a + l) == split_lines(a).update(
            split_lines(a).len() - 1,
            split_lines(a).last() + l,
        ),
    decreases l.len(),
{
    lemma_split_lines_shape(a);
    let lines = split_lines(a);
    if l.len() == 0 {
        assert(a + l =~= a);
        assert(lines.last() + l =~= lines.last());
        assert(lines.update(lines.len() - 1, lines.last()) =~= lines);
    } else {
        let shorter = l.drop_last();
        assert((a + l).drop_last() =~= a + shorter);
        assert((a + l).last() == l.last());
        lemma_split_append_line(a, shorter);
        assert((lines.last() + shorter).push(l.last()) =~= lines.last() + l);
        assert(split_lines(a + l) =~= lines.update(lines.len() - 1, lines.last() + l));
    }
}

proof fn lemma_split_append_crlf(a: Seq<u8>)
    ensures
        split_lines(a + seq![CR, LF]) == split_lines(a).push(Seq::<u8>::empty()),
{
    let ended = a + seq![CR, LF];
    assert(ended.drop_last() =~= a.push(CR));
    assert(a.push(CR).drop_last() =~= a);
    assert(split_lines(a.push(CR)) == split_lines(a));
}

proof fn lemma_split_join(lines: Seq<Seq<u8>>)
    requires
        all_lines(lines),
    ensures
        split_lines(join_crlf(lines)) == lines.push(Seq::<u8>::empty()),
    decreases lines.len(),
{
    let empty = Seq::<u8>::empty();
    if lines.len() == 0 {
        assert(split_lines(join_crlf(lines)) =~= lines.push(empty));
    } else {
        let before = lines.drop_last();
        let l = lines.last();
        assert(all_lines(before)) by {
            assert forall|j: int| 0 <= j < before.len() implies is_line(#[trigger] before[j]) by {
                assert(before[j] == lines[j]);
            }
        }
        lemma_split_join(before);
        assert(is_line(lines[lines.len() - 1]));
        lemma_split_append_line(join_crlf(before), l);
        assert(empty + l =~= l);
        assert(before.push(empty).update(before.len() as int, l) =~= lines);
        lemma_split_append_crlf(join_crlf(before) + l);
    }
}

proof fn lemma_drop_trailing_shape(lines: Seq<Seq<u8>>)
    ensures
        drop_trailing_empty(lines).len() <= lines.len(),
        drop_trailing_empty(lines) == lines.take(drop_trailing_empty(lines).len() as int),
        drop_trailing_empty(lines).len() == 0 || drop_trailing_empty(lines).last().len() > 0,
    decreases lines.len(),
{
    if lines.len() > 0 && lines.last().len() == 0 {
        lemma_drop_trailing_shape(lines.drop_last());
        let kept = drop_trailing_empty(lines);
        assert(lines.drop_last().take(kept.len() as int) =~= lines.take(kept.len() as int));
    } else {
        assert(lines.take(lines.len() as int) =~= lines);
    }
}

proof fn lemma_collapse_shape(l: Seq<u8>)
    ensures
        is_collapsed(collapse_wsp(l)),
        l.len() == 0 ==> collapse_wsp(l).len() == 0,
        l.len() > 0 ==> collapse_wsp(l).len() > 0,
        l.len() > 0 && is_wsp(l.last()) ==> collapse_wsp(l).last() == SP,
        l.len() > 0 && !is_wsp(l.last()) ==> collapse_wsp(l).last() == l.last(),
        is_line(l) ==> is_line(collapse_wsp(l)),
    decreases l.len(),
{
    if l.len() > 0 {
        let shorter = l.drop_last();
        lemma_collapse_shape(shorter);
        if shorter.len() > 0 {
            assert(shorter.last() == l[l.len() - 2]);
        }
        if is_line(l) {
            assert(is_line(shorter)) by {
                assert forall|k: int| 0 <= k < shorter.len() implies shorter[k] != CR && shorter[k]
                    != LF by {
                    assert(shorter[k] == l[k]);
                }
            }
            assert(l[l.len() - 1] != CR && l[l.len() - 1] != LF);
        }
    }
}

proof fn lemma_strip_trailing_shape(l: Seq<u8>)
    ensures
        strip_trailing_wsp(l).len() <= l.len(),
        strip_trailing_wsp(l) == l.take(strip_trailing_wsp(l).len() as int),
        strip_trailing_wsp(l).len() == 0 || !is_wsp(strip_trailing_wsp(l).last()),
    decreases l.len(),
{
    if l.len() > 0 && is_wsp(l.last()) {
        lemma_strip_trailing_shape(l.drop_last());
        let kept = strip_trailing_wsp(l);
        assert(l.drop_last().take(kept.len() as int) =~= l.take(kept.len() as int));
    } else {
        assert(l.take(l.len() as int) =~= l);
    }
}

proof fn lemma_collapse_fixed(r: Seq<u8>)
    requires
        is_collapsed(r),
    ensures
        collapse_wsp(r) == r,
    decreases r.len(),
{
    if r.len() > 0 {
        let shorter = r.drop_last();
        assert(is_collapsed(shorter)) by {
            assert forall|k: int| 0 < k < shorter.len() implies !(shorter[k - 1] == SP
                && #[trigger] shorter[k] == SP) by {
                assert(shorter[k] == r[k]);
                assert(shorter[k - 1] == r[k - 1]);
            }
            assert forall|k: int| 0 <= k < shorter.len() implies shorter[k] != TAB by {
                assert(shorter[k] == r[k]);
            }
        }
        lemma_collapse_fixed(shorter);
        let n = r.len() as int;
        assert(r[n - 1] != TAB);
        if r.len() >= 2 {
            assert(r[n - 2] != TAB);
            assert(!(r[n - 2] == SP && r[n - 1] == SP));
        }
        assert(shorter.push(r.last()) =~= r);
    }
}

/// The relaxed form of a line is its own relaxed form, and holds no line
/// ending if the line held none.
pub proof fn lemma_relaxed_line_idempotent(l: Seq<u8>)
    ensures
        relaxed_line(relaxed_line(l)) == relaxed_line(l),
        is_line(l) ==> is_line(relaxed_line(l)),
{
    lemma_relaxed_line_shape(l);
    lemma_collapse_fixed(relaxed_line(l));
}

/// Canonicalization is idempotent: the canonical form of a canonical body is
/// that body, in simple and in relaxed form alike.
pub proof fn lemma_canonical_body_idempotent(body: Seq<u8>, mode: Canonicalization)
    ensures
        canonical_body(canonical_body(body, mode), mode) == canonical_body(body, mode),
{
    let empty = Seq::<u8>::empty();
    let raw = split_lines(body);
    let shaped = match mode {
        Canonicalization::Simple => raw,
        Canonicalization::Relaxed => relaxed_lines(raw),
    };
    let kept = drop_trailing_empty(shaped);
    let once = canonical_body(body, mode);
    lemma_split_lines_shape(body);
    lemma_drop_trailing_shape(shaped);
    assert(kept == body_lines(body, mode));
    assert(all_lines(kept)) by {
        assert forall|j: int| 0 <= j < kept.len() implies is_line(#[trigger] kept[j]) by {
            assert(kept[j] == shaped[j]);
            assert(is_line(raw[j]));
            lemma_relaxed_line_idempotent(raw[j]);
        }
    }
    if kept.len() == 0 && mode == Canonicalization::Simple {
        let crlf = seq![CR, LF];
        assert(crlf =~= empty + crlf);
        lemma_split_append_crlf(empty);
        assert(split_lines(empty) =~= seq![empty]);
        let again = split_lines(crlf);
        assert(again =~= seq![empty, empty]);
        let none = Seq::<Seq<u8>>::empty();
        let one = seq![empty];
        assert(again.drop_last() =~= one);
        assert(one.drop_last() =~= none);
        assert(drop_trailing_empty(none) == none);
        assert(one.last().len() == 0);
        assert(drop_trailing_empty(one) == none);
        assert(again.last().len() == 0);
        assert(drop_trailing_empty(again) == none);
    } else {
        lemma_split_join(kept);
        let again = split_lines(once);
        assert(again == kept.push(empty));
        let reshaped = match mode {
            Canonicalization::Simple => again,
            Canonicalization::Relaxed => relaxed_lines(again),
        };
        assert(reshaped =~= kept.push(empty)) by {
            if mode == Canonicalization::Relaxed {
                assert(relaxed_line(empty) =~= empty);
                assert forall|j: int| 0 <= j < kept.len() implies relaxed_line(kept[j])
                    == kept[j] by {
                    assert(kept[j] == shaped[j]);
                    lemma_relaxed_line_idempotent(raw[j]);
                }
            }
        }
        assert(kept.push(empty).drop_last() =~= kept);
        assert(drop_trailing_empty(kept.push(empty)) == drop_trailing_empty(kept));
        assert(drop_trailing_empty(kept) == kept);
        assert(body_lines(once, mode) == kept);
    }
}

proof fn lemma_relaxed_line_shape(l: Seq<u8>)
    ensures
        is_collapsed(relaxed_line(l)),
        relaxed_line(l).len() == 0 || !is_wsp(relaxed_line(l).last()),
        is_line(l) ==> is_line(relaxed_line(l)),
{
    let c = collapse_wsp(l);
    let r = strip_trailing_wsp(c);
    lemma_collapse_shape(l);
    lemma_strip_trailing_shape(c);
    assert forall|k: int| 0 < k < r.len() implies !(r[k - 1] == SP && #[trigger] r[k] == SP) by {
        assert(r[k] == c[k]);
        assert(r[k - 1] == c[k - 1]);
    }
    assert forall|k: int| 0 <= k < r.len() implies r[k] != TAB by {
        assert(r[k] == c[k]);
    }
    if is_line(l) {
        assert forall|k: int| 0 <= k < r.len() implies r[k] != CR && r[k] != LF by {
            assert(r[k] == c[k]);
        }
    }
}

proof fn lemma_strip_leading_shape(l: Seq<u8>)
    ensures
        strip_leading_wsp(l).len() <= l.len(),
        strip_leading_wsp(l) == l.skip(l.len() - strip_leading_wsp(l).len()),
        strip_leading_wsp(l).len() == 0 || !is_wsp(strip_leading_wsp(l)[0]),
    decreases l.len(),
{
    if l.len() > 0 && is_wsp(l[0]) {
        let rest = l.drop_first();
        lemma_strip_leading_shape(rest);
        let r = strip_leading_wsp(l);
        assert(rest.skip(rest.len() - r.len()) =~= l.skip(l.len() - r.len()));
    } else {
        assert(l.skip(0) =~= l);
    }
}

proof fn lemma_unfold_shape(s: Seq<u8>)
    ensures
        is_line(unfold(s)),
    decreases s.len(),
{
    if s.len() > 0 {
        lemma_unfold_shape(s.drop_last());
    }
}

proof fn lemma_unfold_fixed(s: Seq<u8>)
    requires
        is_line(s),
    ensures
        unfold(s) == s,
    decreases s.len(),
{
    if s.len() > 0 {
        let shorter = s.drop_last();
        assert forall|k: int| 0 <= k < shorter.len() implies shorter[k] != CR && shorter[k]
            != LF by {
            assert(shorter[k] == s[k]);
        }
        lemma_unfold_fixed(shorter);
        assert(s[s.len() - 1] != CR && s[s.len() - 1] != LF);
        assert(shorter.push(s.last()) =~= s);
    }
}

proof fn lemma_unfold_ended(s: Seq<u8>)
    ensures
        unfold(s + seq![CR, LF]) == unfold(s),
{
    let ended = s + seq![CR, LF];
    assert(ended.drop_last() =~= s.push(CR));
    assert(s.push(CR).drop_last() =~= s);
    assert(unfold(s.push(CR)) == unfold(s));
}

spec fn is_plain_name(r: Seq<u8>) -> bool {
    forall|k: int| 0 <= k < r.len() ==> !is_fws(#[trigger] r[k]) && lower(r[k]) == r[k]
}

proof fn lemma_name_shape(name: Seq<u8>)
    ensures
        is_plain_name(relaxed_header_name(name)),
    decreases name.len(),
{
    if name.len() > 0 {
        lemma_name_shape(name.drop_last());
    }
}

proof fn lemma_name_fixed(r: Seq<u8>)
    requires
        is_plain_name(r),
    ensures
        relaxed_header_name(r) == r,
    decreases r.len(),
{
    if r.len() > 0 {
        let shorter = r.drop_last();
        assert forall|k: int| 0 <= k < shorter.len() implies !is_fws(#[trigger] shorter[k])
            && lower(shorter[k]) == shorter[k] by {
            assert(shorter[k] == r[k]);
        }
        lemma_name_fixed(shorter);
        assert(!is_fws(r[r.len() - 1]) && lower(r[r.len() - 1]) == r[r.len() - 1]);
        assert(shorter.push(r.last()) =~= r);
    }
}

proof fn lemma_value_fixed(value: Seq<u8>)
    ensures
        relaxed_header_value(relaxed_header_value(value)) == relaxed_header_value(value),
        is_line(relaxed_header_value(value)),
{
    let y = relaxed_line(unfold(value));
    let rv = strip_leading_wsp(y);
    lemma_unfold_shape(value);
    lemma_relaxed_line_shape(unfold(value));
    lemma_strip_leading_shape(y);
    let j = y.len() - rv.len();
    assert(is_line(rv)) by {
        assert forall|k: int| 0 <= k < rv.len() implies rv[k] != CR && rv[k] != LF by {
            assert(rv[k] == y[k + j]);
        }
    }
    assert(is_collapsed(rv)) by {
        assert forall|k: int| 0 < k < rv.len() implies !(rv[k - 1] == SP && #[trigger] rv[k]
            == SP) by {
            assert(rv[k] == y[k + j]);
            assert(rv[k - 1] == y[k + j - 1]);
        }
        assert forall|k: int| 0 <= k < rv.len() implies rv[k] != TAB by {
            assert(rv[k] == y[k + j]);
        }
    }
    if rv.len() > 0 {
        assert(rv.last() == y.last());
    }
    lemma_unfold_fixed(rv);
    lemma_collapse_fixed(rv);
    assert(strip_trailing_wsp(rv) == rv);
    assert(strip_leading_wsp(rv) == rv);
}

/// The relaxed form of a header field name is its own relaxed form.
pub proof fn lemma_relaxed_name_idempotent(name: Seq<u8>)
    ensures
        relaxed_header_name(relaxed_header_name(name)) == relaxed_header_name(name),
{
    lemma_name_shape(name);
    lemma_name_fixed(relaxed_header_name(name));
}

/// What ends the relaxed form of a header field: CRLF if the value carries
/// its line terminator, nothing if it does not.
pub open spec fn terminator(value: Seq<u8>) -> Seq<u8> {
    if is_terminated(value) {
        seq![CR, LF]
    } else {
        Seq::<u8>::empty()
    }
}

/// The relaxed form of a header field is its own relaxed form: a field
/// whose name and value are those of the relaxed form of another has that
/// same relaxed form. So two header blocks of which one is the relaxed form
/// of the other are signed and verified alike.
pub proof fn lemma_relaxed_header_idempotent(name: Seq<u8>, value: Seq<u8>)
    ensures
        canonical_header(name, value, Canonicalization::Relaxed) == relaxed_header_name(name)
            + seq![COLON] + relaxed_header_value(value) + terminator(value),
        canonical_header(
            relaxed_header_name(name),
            relaxed_header_value(value) + terminator(value),
            Canonicalization::Relaxed,
        ) == canonical_header(name, value, Canonicalization::Relaxed),
{
    let rn = relaxed_header_name(name);
    let rv = relaxed_header_value(value);
    let again = rv + terminator(value);
    lemma_name_shape(name);
    lemma_name_fixed(rn);
    lemma_value_fixed(value);
    if is_terminated(value) {
        lemma_unfold_ended(rv);
        assert(again.last() == LF);
        assert(unfold(again) == unfold(rv));
    } else {
        assert(again =~= rv);
        if rv.len() > 0 {
            assert(rv[rv.len() - 1] != LF);
        }
    }
    assert(relaxed_header_value(again) == rv) by {
        lemma_unfold_fixed(rv);
        assert(unfold(again) == rv);
    }
    assert(terminator(again) == terminator(value));
}

proof fn lemma_strip_leading_skip(l: Seq<u8>, j: int)
    requires
        0 <= j <= l.len(),
        forall|k: int| 0 <= k < j ==> is_wsp(l[k]),
        j == l.len() || !is_wsp(l[j]),
    ensures
        strip_leading_wsp(l) == l.skip(j),
    decreases j,
{
    if j == 0 {
        assert(l.skip(0) =~= l);
    } else {
        let rest = l.drop_first();
        assert forall|k: int| 0 <= k < j - 1 implies is_wsp(rest[k]) by {
            assert(rest[k] == l[k + 1]);
        }
        lemma_strip_leading_skip(rest, j - 1);
        assert(rest.skip(j - 1) =~= l.skip(j));
    }
}

/// Whether `b` is a space or a tab.
pub fn wsp(b: u8) -> (r: bool)
    ensures
        r == is_wsp(b),
{
    b == SP || b == TAB
}

/// The lower-case form of an ASCII letter; any other byte unchanged.
pub fn to_lower(b: u8) -> (r: u8)
    ensures
        r == lower(b),
{
    if 65 <= b && b <= 90 {
        b + 32
    } else {
        b
    }
}

fn ends_in_wsp(v: &Vec<u8>) -> (r: bool)
    ensures
        r == (v@.len() > 0 && is_wsp(v@.last())),
{
    v.len() > 0 && wsp(v[v.len() - 1])
}

fn relax_line(line: &[u8]) -> (out: Vec<u8>)
    ensures
        out@ == relaxed_line(line@),
{
    let mut out: Vec<u8> = Vec::new();
    let mut prev_wsp = false;
    let mut i: usize = 0;
    while i < line.len()
        invariant
            i <= line.len(),
            out@ == collapse_wsp(line@.take(i as int)),
            prev_wsp == (i > 0 && is_wsp(line@[i - 1])),
        decreases line.len() - i,
    {
        let b = line[i];
        proof {
            let upto = line@.take(i + 1);
            assert(upto.drop_last() =~= line@.take(i as int));
            assert(upto.last() == b);
            if i > 0 {
                assert(upto[upto.len() - 2] == line@[i - 1]);
            }
        }
        if wsp(b) {
            if !prev_wsp {
                out.push(SP);
            }
            prev_wsp = true;
        } else {
            out.push(b);
            prev_wsp = false;
        }
        i += 1;
    }
    proof {
        assert(line@.take(line.len() as int) =~= line@);
    }
    let ghost collapsed = out@;
    let mut more = ends_in_wsp(&out);
    while more
        invariant
            strip_trailing_wsp(out@) == strip_trailing_wsp(collapsed),
            more == (out@.len() > 0 && is_wsp(out@.last())),
        decreases out@.len(),
    {
        out.pop();
        more = ends_in_wsp(&out);
    }
    out
}

fn split_body(body: &[u8]) -> (lines: Vec<Vec<u8>>)
    ensures
        lines_view(lines@) == split_lines(body@),
{
    let mut done: Vec<Vec<u8>> = Vec::new();
    let mut cur: Vec<u8> = Vec::new();
    let mut i: usize = 0;
    proof {
        assert(lines_view(done@).push(cur@) =~= split_lines(body@.take(0)));
    }
    while i < body.len()
        invariant
            i <= body.len(),
            lines_view(done@).push(cur@) == split_lines(body@.take(i as int)),
        decreases body.len() - i,
    {
        let b = body[i];
        let ghost before = lines_view(done@).push(cur@);
        proof {
            let upto = body@.take(i + 1);
            assert(upto.drop_last() =~= body@.take(i as int));
            assert(upto.last() == b);
        }
        if b == LF {
            done.push(cur);
            cur = Vec::new();
            proof {
                assert(lines_view(done@).push(cur@) =~= before.push(Seq::<u8>::empty()));
            }
        } else if b != CR {
            cur.push(b);
            proof {
                assert(lines_view(done@).push(cur@) =~= before.update(
                    before.len() - 1,
                    before.last().push(b),
                ));
            }
        }
        i += 1;
    }
    proof {
        assert(body@.take(body.len() as int) =~= body@);
    }
    let ghost all = lines_view(done@).push(cur@);
    done.push(cur);
    proof {
        assert(lines_view(done@) =~= all);
    }
    done
}

fn relax_lines(lines: &Vec<Vec<u8>>) -> (out: Vec<Vec<u8>>)
    ensures
        lines_view(out@) == relaxed_lines(lines_view(lines@)),
{
    let mut out: Vec<Vec<u8>> = Vec::new();
    let mut i: usize = 0;
    while i < lines.len()
        invariant
            i <= lines.len(),
            out@.len() == i,
            forall|j: int| 0 <= j < i ==> (#[trigger] out@[j])@ == relaxed_line(lines@[j]@),
        decreases lines.len() - i,
    {
        let line = relax_line(lines[i].as_slice());
        out.push(line);
        i += 1;
    }
    proof {
        assert(lines_view(out@) =~= relaxed_lines(lines_view(lines@)));
    }
    out
}

fn kept_lines(lines: &Vec<Vec<u8>>) -> (n: usize)
    ensures
        n <= lines@.len(),
        lines_view(lines@).take(n as int) == drop_trailing_empty(lines_view(lines@)),
{
    let ghost all = lines_view(lines@);
    let mut n: usize = lines.len();
    proof {
        assert(all.take(n as int) =~= all);
    }
    while n > 0 && lines[n - 1].len() == 0
        invariant
            n <= lines@.len(),
            all == lines_view(lines@),
            drop_trailing_empty(all.take(n as int)) == drop_trailing_empty(all),
        decreases n,
    {
        proof {
            assert(all.take(n as int).drop_last() =~= all.take(n - 1));
            assert(all.take(n as int).last() == lines@[n - 1]@);
        }
        n -= 1;
    }
    proof {
        if n > 0 {
            assert(all.take(n as int).last() == lines@[n - 1]@);
        }
    }
    n
}

fn join_lines(lines: &Vec<Vec<u8>>, n: usize) -> (out: Vec<u8>)
    requires
        n <= lines@.len(),
    ensures
        out@ == join_crlf(lines_view(lines@).take(n as int)),
{
    let ghost all = lines_view(lines@);
    let mut out: Vec<u8> = Vec::new();
    let mut i: usize = 0;
    while i < n
        invariant
            i <= n <= lines@.len(),
            all == lines_view(lines@),
            out@ == join_crlf(all.take(i as int)),
        decreases n - i,
    {
        proof {
            assert(all.take(i + 1).drop_last() =~= all.take(i as int));
            assert(all.take(i + 1).last() == lines@[i as int]@);
        }
        let ghost before = out@;
        out.extend_from_slice(lines[i].as_slice());
        out.push(CR);
        out.push(LF);
        proof {
            assert(out@ =~= before + lines@[i as int]@ + seq![CR, LF]);
        }
        i += 1;
    }
    out
}

/// The canonical form of a message body.
pub fn canonicalize_body(body: &[u8], mode: Canonicalization) -> (out: Vec<u8>)
    ensures
        out@ == canonical_body(body@, mode),
{
    let raw = split_body(body);
    let lines = match mode {
        Canonicalization::Simple => raw,
        Canonicalization::Relaxed => relax_lines(&raw),
    };
    let n = kept_lines(&lines);
    if n == 0 && mode == Canonicalization::Simple {
        let mut out: Vec<u8> = Vec::new();
        out.push(CR);
        out.push(LF);
        proof {
            assert(out@ =~= seq![CR, LF]);
        }
        out
    } else {
        join_lines(&lines, n)
    }
}

fn normalize_endings(value: &[u8], out: &mut Vec<u8>)
    ensures
        final(out)@ == old(out)@ + normalize_line_endings(value@),
{
    let ghost start = out@;
    let mut i: usize = 0;
    proof {
        assert(out@ =~= start + normalize_line_endings(value@.take(0)));
    }
    while i < value.len()
        invariant
            i <= value.len(),
            out@ == start + normalize_line_endings(value@.take(i as int)),
        decreases value.len() - i,
    {
        let b = value[i];
        proof {
            let upto = value@.take(i + 1);
            assert(upto.drop_last() =~= value@.take(i as int));
            assert(upto.last() == b);
        }
        let ghost before = normalize_line_endings(value@.take(i as int));
        if b == LF {
            out.push(CR);
            out.push(LF);
            proof {
                assert(out@ =~= start + before.push(CR).push(LF));
            }
        } else if b != CR {
            out.push(b);
            proof {
                assert(out@ =~= start + before.push(b));
            }
        }
        i += 1;
    }
    proof {
        assert(value@.take(value.len() as int) =~= value@);
    }
}

fn relax_name(name: &[u8], out: &mut Vec<u8>)
    ensures
        final(out)@ == old(out)@ + relaxed_header_name(name@),
{
    let ghost start = out@;
    let mut i: usize = 0;
    proof {
        assert(out@ =~= start + relaxed_header_name(name@.take(0)));
    }
    while i < name.len()
        invariant
            i <= name.len(),
            out@ == start + relaxed_header_name(name@.take(i as int)),
        decreases name.len() - i,
    {
        let b = name[i];
        proof {
            let upto = name@.take(i + 1);
            assert(upto.drop_last() =~= name@.take(i as int));
            assert(upto.last() == b);
        }
        let ghost before = relaxed_header_name(name@.take(i as int));
        if !(wsp(b) || b == CR || b == LF) {
            out.push(to_lower(b));
            proof {
                assert(out@ =~= start + before.push(lower(b)));
            }
        }
        i += 1;
    }
    proof {
        assert(name@.take(name.len() as int) =~= name@);
    }
}

/// A header field name in relaxed form.
pub fn relax_header_name(name: &[u8]) -> (out: Vec<u8>)
    ensures
        out@ == relaxed_header_name(name@),
{
    let mut out: Vec<u8> = Vec::new();
    relax_name(name, &mut out);
    proof {
        assert(Seq::<u8>::empty() + relaxed_header_name(name@) =~= relaxed_header_name(name@));
    }
    out
}

/// Whether two byte strings are equal.
pub fn bytes_eq(a: &[u8], b: &[u8]) -> (r: bool)
    ensures
        r == (a@ == b@),
{
    if a.len() != b.len() {
        return false;
    }
    let mut i: usize = 0;
    while i < a.len()
        invariant
            i <= a@.len(),
            a@.len() == b@.len(),
            forall|k: int| 0 <= k < i ==> a@[k] == b@[k],
        decreases a@.len() - i,
    {
        if a[i] != b[i] {
            return false;
        }
        i += 1;
    }
    proof {
        assert(a@ =~= b@);
    }
    true
}

fn unfold_value(value: &[u8]) -> (out: Vec<u8>)
    ensures
        out@ == unfold(value@),
{
    let mut out: Vec<u8> = Vec::new();
    let mut i: usize = 0;
    while i < value.len()
        invariant
            i <= value.len(),
            out@ == unfold(value@.take(i as int)),
        decreases value.len() - i,
    {
        let b = value[i];
        proof {
            let upto = value@.take(i + 1);
            assert(upto.drop_last() =~= value@.take(i as int));
            assert(upto.last() == b);
        }
        if b != CR && b != LF {
            out.push(b);
        }
        i += 1;
    }
    proof {
        assert(value@.take(value.len() as int) =~= value@);
    }
    out
}

fn relax_value(value: &[u8], out: &mut Vec<u8>)
    ensures
        final(out)@ == old(out)@ + relaxed_header_value(value@),
{
    let ghost start = out@;
    let flat = unfold_value(value);
    let line = relax_line(flat.as_slice());
    let mut j: usize = 0;
    while j < line.len() && wsp(line[j])
        invariant
            j <= line.len(),
            forall|k: int| 0 <= k < j ==> is_wsp(line@[k]),
        decreases line.len() - j,
    {
        j += 1;
    }
    proof {
        lemma_strip_leading_skip(line@, j as int);
    }
    let rest = vstd::slice::slice_subrange(line.as_slice(), j, line.len());
    out.extend_from_slice(rest);
    proof {
        assert(line@.subrange(j as int, line.len() as int) =~= line@.skip(j as int));
    }
}

/// The canonical form of one header field, from its name (what stands before
/// the colon) and its value (what follows it, line terminator included).
pub fn canonicalize_header(name: &[u8], value: &[u8], mode: Canonicalization) -> (out: Vec<u8>)
    ensures
        out@ == canonical_header(name@, value@, mode),
{
    let mut out: Vec<u8> = Vec::new();
    match mode {
        Canonicalization::Simple => {
            out.extend_from_slice(name);
            out.push(COLON);
            normalize_endings(value, &mut out);
            proof {
                assert(out@ =~= name@ + seq![COLON] + normalize_line_endings(value@));
            }
        },
        Canonicalization::Relaxed => {
            relax_name(name, &mut out);
            out.push(COLON);
            relax_value(value, &mut out);
            if value.len() > 0 && value[value.len() - 1] == LF {
                out.push(CR);
                out.push(LF);
            }
            proof {
                assert(out@ =~= canonical_header(name@, value@, mode));
            }
        },
    }
    out
}

} // verus!
