//! Signer and verifier agree: what a verifier takes a signature to be over
//! is what the signer signed.

use vstd::prelude::*;
use vstd::utf8::is_ascii_chars_encode_utf8;
use crate::common::base64::base64_encode;
use crate::dkim::canonicalize::{is_fws, COLON, CR, LF, SP};
use crate::dkim::canonicalize::is_wsp;
use crate::dkim::headers::{
    body_from, count_name, field_end, fields_from, first_colon, is_blank_at, line_end,
    message_body, message_headers, nth_from_bottom, same_name, selected, selected_field,
    signed_fields_upto, Field,
};
use crate::dkim::sign::{is_signed, is_signing, signature_header, with_hashes};
use crate::dkim::verify::{
    is_conclusion, is_outcome, is_reading_of, is_signature_field, key_for, signature_fields,
    Found, LookupView,
};
use crate::DkimOutput;
use crate::Error;
use vstd::utf8::valid_utf8;
use crate::dkim::parse::{
    algorithm_of, all_utf8, ascii, atps_hash_of, canonicalization_of, decimal_value, first_byte,
    identity_within, is_decimal, items, items_from, items_of, number_of, or_empty, signature_from,
    signature_of, tag_list, tag_value, tags_from, trim_end, trim_start, trimmed, TagView, BAR,
    EQUALS, SEMICOLON,
};
use crate::common::crypto::{
    key_hashes, key_signs, verifier_hashes, verifier_judges, Algorithm, HashAlgorithm, SigningKey,
    Verifier,
};
use crate::dkim::sign::{
    algorithm_name, canonicalization_name, decimal_digits, hash_name, hashed_body, joined,
    required_tags, signature_text, signing_input, unsigned_view, with_number, with_numbers,
    with_options,
};
use crate::dkim::verify::{
    body_hash_input, conclusion, lemma_same_body_hashed, signature_bytes_range, unterminated,
    verification_input, without_signature_bytes,
};
use crate::dkim::{Canonicalization, SignatureView};
use crate::DkimResult;

verus! {

/// Whether `s` holds no semicolon.
pub open spec fn no_semicolon(s: Seq<u8>) -> bool {
    forall|k: int| 0 <= k < s.len() ==> #[trigger] s[k] != SEMICOLON
}

/// Whether no text of the signature holds a semicolon, so that its header
/// field reads back as the tags it was written from.
pub open spec fn is_clean(sig: SignatureView) -> bool {
    &&& no_semicolon(sig.d)
    &&& no_semicolon(sig.s)
    &&& no_semicolon(sig.i)
    &&& no_semicolon(joined(sig.h, COLON))
    &&& no_semicolon(joined(sig.z, BAR))
    &&& sig.atps is Some ==> no_semicolon(sig.atps->0)
}

spec fn is_letters(t: Seq<u8>) -> bool {
    &&& t.len() > 0
    &&& forall|k: int| 0 <= k < t.len() ==> 97 <= #[trigger] t[k] <= 122
}

spec fn is_tag_name(t: Seq<u8>) -> bool {
    is_letters(t) && t != seq![98u8]
}

spec fn skips(text: Seq<u8>, rest: Seq<u8>) -> bool {
    let s = text + seq![SEMICOLON] + rest;
    signature_bytes_range(s, 0) == signature_bytes_range(s, (text.len() + 1) as int)
}

proof fn lemma_first_byte_is(s: Seq<u8>, b: u8, p: int, e: int, at: int)
    requires
        0 <= p <= at < e <= s.len(),
        s[at] == b,
        forall|k: int| p <= k < at ==> s[k] != b,
    ensures
        first_byte(s, b, p, e) == at,
    decreases at - p,
{
    if p < at {
        lemma_first_byte_is(s, b, p + 1, e, at);
    }
}

proof fn lemma_first_byte_none(s: Seq<u8>, b: u8, p: int, e: int)
    requires
        0 <= p <= e <= s.len(),
        forall|k: int| p <= k < e ==> s[k] != b,
    ensures
        first_byte(s, b, p, e) == e,
    decreases e - p,
{
    if p < e {
        lemma_first_byte_none(s, b, p + 1, e);
    }
}

proof fn lemma_name_b()
    ensures
        ascii("b") == seq![98u8],
{
    reveal_strlit("b");
    is_ascii_chars_encode_utf8("b"@);
    assert(ascii("b") =~= seq![98u8]);
}

proof fn lemma_tag_is_trimmed(s: Seq<u8>, p: int, tag: Seq<u8>)
    requires
        is_letters(tag),
        0 <= p,
        p + 1 + tag.len() < s.len(),
        s[p] == SP,
        forall|j: int| 0 <= j < tag.len() ==> s[p + 1 + j] == #[trigger] tag[j],
    ensures
        trimmed(s, p, p + 1 + tag.len()) == tag,
{
    let q = p + 1 + tag.len();
    assert(s[p + 1] == tag[0]);
    assert(!is_fws(s[p + 1]));
    assert(trim_start(s, p + 1, q) == p + 1);
    assert(trim_start(s, p, q) == p + 1);
    assert(s[q - 1] == tag[tag.len() - 1]);
    assert(!is_fws(s[q - 1]));
    assert(trim_end(s, p + 1, q) == q);
    assert(s.subrange(p + 1, q) =~= tag);
}

proof fn lemma_segment_is_skipped(s: Seq<u8>, p: int, tag: Seq<u8>, e: int)
    requires
        is_tag_name(tag),
        0 <= p,
        p + 1 + tag.len() < e < s.len(),
        s[p] == SP,
        forall|j: int| 0 <= j < tag.len() ==> s[p + 1 + j] == #[trigger] tag[j],
        s[p + 1 + tag.len()] == EQUALS,
        forall|k: int| p <= k < e ==> s[k] != SEMICOLON,
        s[e] == SEMICOLON,
    ensures
        signature_bytes_range(s, p) == signature_bytes_range(s, e + 1),
{
    let q = p + 1 + tag.len();
    lemma_first_byte_is(s, SEMICOLON, p, s.len() as int, e);
    assert forall|k: int| p <= k < q implies s[k] != EQUALS by {
        if k > p {
            assert(s[p + 1 + (k - p - 1)] == tag[k - p - 1]);
        }
    }
    lemma_first_byte_is(s, EQUALS, p, e, q);
    lemma_tag_is_trimmed(s, p, tag);
    lemma_name_b();
}

proof fn lemma_append(text: Seq<u8>, tag: Seq<u8>, val: Seq<u8>, rest: Seq<u8>)
    requires
        is_tag_name(tag),
        no_semicolon(val),
        skips(text, seq![SP] + tag + seq![EQUALS] + val + seq![SEMICOLON] + rest),
    ensures
        skips(text + seq![SEMICOLON, SP] + tag + seq![EQUALS] + val, rest),
{
    let piece = seq![SP] + tag + seq![EQUALS] + val;
    let s = text + seq![SEMICOLON] + (piece + seq![SEMICOLON] + rest);
    let longer = text + seq![SEMICOLON, SP] + tag + seq![EQUALS] + val;
    assert(longer + seq![SEMICOLON] + rest =~= s);
    let p: int = text.len() as int + 1;
    let e: int = p + piece.len() as int;
    assert forall|j: int| 0 <= j < tag.len() implies s[p + 1 + j] == #[trigger] tag[j] by {
        assert(s[p + 1 + j] == piece[1 + j]);
    }
    assert(s[p] == piece[0]);
    assert(s[p + 1 + tag.len()] == piece[1 + tag.len() as int]);
    assert forall|k: int| p <= k < e implies s[k] != SEMICOLON by {
        assert(s[k] == piece[k - p]);
        if k - p > 1 + tag.len() {
            assert(piece[k - p] == val[k - p - 2 - tag.len()]);
        } else if 1 <= k - p <= tag.len() {
            assert(piece[k - p] == tag[k - p - 1]);
        }
    }
    lemma_segment_is_skipped(s, p, tag, e);
}

proof fn lemma_text_intro()
    ensures
        ascii("v=1; a=") == seq![118u8, 61, 49, 59, 32, 97, 61],
{
    reveal_strlit("v=1; a=");
    is_ascii_chars_encode_utf8("v=1; a="@);
    assert(ascii("v=1; a=") =~= seq![118u8, 61, 49, 59, 32, 97, 61]);
}

proof fn lemma_text_c()
    ensures
        ascii("; c=") == seq![59u8, 32, 99, 61],
{
    reveal_strlit("; c=");
    is_ascii_chars_encode_utf8("; c="@);
    assert(ascii("; c=") =~= seq![59u8, 32, 99, 61]);
}

proof fn lemma_text_slash()
    ensures
        ascii("/") == seq![47u8],
{
    reveal_strlit("/");
    is_ascii_chars_encode_utf8("/"@);
    assert(ascii("/") =~= seq![47u8]);
}

proof fn lemma_text_d()
    ensures
        ascii("; d=") == seq![59u8, 32, 100, 61],
{
    reveal_strlit("; d=");
    is_ascii_chars_encode_utf8("; d="@);
    assert(ascii("; d=") =~= seq![59u8, 32, 100, 61]);
}

proof fn lemma_text_s()
    ensures
        ascii("; s=") == seq![59u8, 32, 115, 61],
{
    reveal_strlit("; s=");
    is_ascii_chars_encode_utf8("; s="@);
    assert(ascii("; s=") =~= seq![59u8, 32, 115, 61]);
}

proof fn lemma_text_h()
    ensures
        ascii("; h=") == seq![59u8, 32, 104, 61],
{
    reveal_strlit("; h=");
    is_ascii_chars_encode_utf8("; h="@);
    assert(ascii("; h=") =~= seq![59u8, 32, 104, 61]);
}

proof fn lemma_text_i()
    ensures
        ascii("; i=") == seq![59u8, 32, 105, 61],
{
    reveal_strlit("; i=");
    is_ascii_chars_encode_utf8("; i="@);
    assert(ascii("; i=") =~= seq![59u8, 32, 105, 61]);
}

proof fn lemma_text_l()
    ensures
        ascii("; l=") == seq![59u8, 32, 108, 61],
{
    reveal_strlit("; l=");
    is_ascii_chars_encode_utf8("; l="@);
    assert(ascii("; l=") =~= seq![59u8, 32, 108, 61]);
}

proof fn lemma_text_t()
    ensures
        ascii("; t=") == seq![59u8, 32, 116, 61],
{
    reveal_strlit("; t=");
    is_ascii_chars_encode_utf8("; t="@);
    assert(ascii("; t=") =~= seq![59u8, 32, 116, 61]);
}

proof fn lemma_text_x()
    ensures
        ascii("; x=") == seq![59u8, 32, 120, 61],
{
    reveal_strlit("; x=");
    is_ascii_chars_encode_utf8("; x="@);
    assert(ascii("; x=") =~= seq![59u8, 32, 120, 61]);
}

proof fn lemma_text_r()
    ensures
        ascii("; r=y") == seq![59u8, 32, 114, 61, 121],
{
    reveal_strlit("; r=y");
    is_ascii_chars_encode_utf8("; r=y"@);
    assert(ascii("; r=y") =~= seq![59u8, 32, 114, 61, 121]);
}

proof fn lemma_text_atps()
    ensures
        ascii("; atps=") == seq![59u8, 32, 97, 116, 112, 115, 61],
{
    reveal_strlit("; atps=");
    is_ascii_chars_encode_utf8("; atps="@);
    assert(ascii("; atps=") =~= seq![59u8, 32, 97, 116, 112, 115, 61]);
}

proof fn lemma_text_atpsh()
    ensures
        ascii("; atpsh=") == seq![59u8, 32, 97, 116, 112, 115, 104, 61],
{
    reveal_strlit("; atpsh=");
    is_ascii_chars_encode_utf8("; atpsh="@);
    assert(ascii("; atpsh=") =~= seq![59u8, 32, 97, 116, 112, 115, 104, 61]);
}

proof fn lemma_text_z()
    ensures
        ascii("; z=") == seq![59u8, 32, 122, 61],
{
    reveal_strlit("; z=");
    is_ascii_chars_encode_utf8("; z="@);
    assert(ascii("; z=") =~= seq![59u8, 32, 122, 61]);
}

proof fn lemma_text_bh()
    ensures
        ascii("; bh=") == seq![59u8, 32, 98, 104, 61],
{
    reveal_strlit("; bh=");
    is_ascii_chars_encode_utf8("; bh="@);
    assert(ascii("; bh=") =~= seq![59u8, 32, 98, 104, 61]);
}

proof fn lemma_text_b()
    ensures
        ascii("; b=") == seq![59u8, 32, 98, 61],
{
    reveal_strlit("; b=");
    is_ascii_chars_encode_utf8("; b="@);
    assert(ascii("; b=") =~= seq![59u8, 32, 98, 61]);
}

proof fn lemma_text_rsa_sha256()
    ensures
        ascii("rsa-sha256") == seq![114u8, 115, 97, 45, 115, 104, 97, 50, 53, 54],
{
    reveal_strlit("rsa-sha256");
    is_ascii_chars_encode_utf8("rsa-sha256"@);
    assert(ascii("rsa-sha256") =~= seq![114u8, 115, 97, 45, 115, 104, 97, 50, 53, 54]);
}

proof fn lemma_text_rsa_sha1()
    ensures
        ascii("rsa-sha1") == seq![114u8, 115, 97, 45, 115, 104, 97, 49],
{
    reveal_strlit("rsa-sha1");
    is_ascii_chars_encode_utf8("rsa-sha1"@);
    assert(ascii("rsa-sha1") =~= seq![114u8, 115, 97, 45, 115, 104, 97, 49]);
}

proof fn lemma_text_ed25519_sha256()
    ensures
        ascii("ed25519-sha256") == seq![101u8, 100, 50, 53, 53, 49, 57, 45, 115, 104, 97, 50, 53, 54],
{
    reveal_strlit("ed25519-sha256");
    is_ascii_chars_encode_utf8("ed25519-sha256"@);
    assert(ascii("ed25519-sha256") =~= seq![101u8, 100, 50, 53, 53, 49, 57, 45, 115, 104, 97, 50, 53, 54]);
}

proof fn lemma_text_relaxed()
    ensures
        ascii("relaxed") == seq![114u8, 101, 108, 97, 120, 101, 100],
{
    reveal_strlit("relaxed");
    is_ascii_chars_encode_utf8("relaxed"@);
    assert(ascii("relaxed") =~= seq![114u8, 101, 108, 97, 120, 101, 100]);
}

proof fn lemma_text_simple()
    ensures
        ascii("simple") == seq![115u8, 105, 109, 112, 108, 101],
{
    reveal_strlit("simple");
    is_ascii_chars_encode_utf8("simple"@);
    assert(ascii("simple") =~= seq![115u8, 105, 109, 112, 108, 101]);
}

proof fn lemma_text_sha256()
    ensures
        ascii("sha256") == seq![115u8, 104, 97, 50, 53, 54],
{
    reveal_strlit("sha256");
    is_ascii_chars_encode_utf8("sha256"@);
    assert(ascii("sha256") =~= seq![115u8, 104, 97, 50, 53, 54]);
}

proof fn lemma_text_sha1()
    ensures
        ascii("sha1") == seq![115u8, 104, 97, 49],
{
    reveal_strlit("sha1");
    is_ascii_chars_encode_utf8("sha1"@);
    assert(ascii("sha1") =~= seq![115u8, 104, 97, 49]);
}

proof fn lemma_letter_is_tag(c: u8)
    requires
        97 <= c <= 122,
        c != 98,
    ensures
        is_tag_name(seq![c]),
{
    assert(seq![c][0] != seq![98u8][0]);
}

proof fn lemma_letters_are_tag(t: Seq<u8>)
    requires
        t.len() >= 2,
        forall|k: int| 0 <= k < t.len() ==> 97 <= #[trigger] t[k] <= 122,
    ensures
        is_tag_name(t),
{
    assert(t.len() != seq![98u8].len());
}

spec fn always_skips(text: Seq<u8>) -> bool {
    forall|rest: Seq<u8>| #[trigger] skips(text, rest)
}

proof fn lemma_extend(text: Seq<u8>, lit: Seq<u8>, tag: Seq<u8>, val: Seq<u8>)
    requires
        always_skips(text),
        is_tag_name(tag),
        lit == seq![SEMICOLON, SP] + tag + seq![EQUALS],
        no_semicolon(val),
    ensures
        always_skips(text + lit + val),
{
    assert forall|rest: Seq<u8>| #[trigger] skips(text + lit + val, rest) by {
        assert(skips(text, seq![SP] + tag + seq![EQUALS] + val + seq![SEMICOLON] + rest));
        lemma_append(text, tag, val, rest);
        assert(text + lit + val =~= text + seq![SEMICOLON, SP] + tag + seq![EQUALS] + val);
    }
}

proof fn lemma_digits_have_no_semicolon(n: nat)
    ensures
        no_semicolon(decimal_digits(n)),
    decreases n,
{
    if n >= 10 {
        lemma_digits_have_no_semicolon(n / 10);
    }
}

proof fn lemma_names_have_no_semicolon(sig: SignatureView)
    ensures
        no_semicolon(algorithm_name(sig.a)),
        no_semicolon(canonicalization_name(sig.ch) + ascii("/") + canonicalization_name(sig.cb)),
        sig.atpsh is Some ==> no_semicolon(hash_name(sig.atpsh->0)),
{
    lemma_text_rsa_sha256();
    lemma_text_rsa_sha1();
    lemma_text_ed25519_sha256();
    lemma_text_relaxed();
    lemma_text_simple();
    lemma_text_slash();
    lemma_text_sha256();
    lemma_text_sha1();
}

proof fn lemma_start(text: Seq<u8>)
    requires
        text == seq![SP, 118u8, 61u8, 49u8],
    ensures
        always_skips(text),
{
    assert forall|rest: Seq<u8>| #[trigger] skips(text, rest) by {
        let s = text + seq![SEMICOLON] + rest;
        let tag = seq![118u8];
        lemma_letter_is_tag(118);
        lemma_segment_is_skipped(s, 0, tag, 4);
    }
}

proof fn lemma_led(x: Seq<u8>, y: Seq<u8>)
    ensures
        seq![SP] + (x + y) == seq![SP] + x + y,
{
    assert(seq![SP] + (x + y) =~= seq![SP] + x + y);
}

proof fn lemma_grouped(x: Seq<u8>, a: Seq<u8>, b: Seq<u8>, c: Seq<u8>)
    ensures
        x + a + b + c == x + (a + b + c),
{
    assert(x + a + b + c =~= x + (a + b + c));
}

proof fn lemma_algorithm(sig: SignatureView)
    ensures
        always_skips(seq![SP] + (ascii("v=1; a=") + algorithm_name(sig.a))),
{
    lemma_names_have_no_semicolon(sig);
    let start = seq![SP, 118u8, 61u8, 49u8];
    let lit = seq![SEMICOLON, SP, 97u8, EQUALS];
    lemma_start(start);
    assert(lit =~= seq![SEMICOLON, SP] + seq![97u8] + seq![EQUALS]);
    lemma_letter_is_tag(97);
    lemma_extend(start, lit, seq![97u8], algorithm_name(sig.a));
    assert(seq![SP] + ascii("v=1; a=") =~= start + lit) by {
        lemma_text_intro();
    }
    lemma_led(ascii("v=1; a="), algorithm_name(sig.a));
}

proof fn lemma_modes(text: Seq<u8>, sig: SignatureView)
    requires
        always_skips(seq![SP] + text),
    ensures
        always_skips(
            seq![SP] + (text + ascii("; c=") + canonicalization_name(sig.ch) + ascii("/")
                + canonicalization_name(sig.cb)),
        ),
{
    lemma_names_have_no_semicolon(sig);
    let modes = canonicalization_name(sig.ch) + ascii("/") + canonicalization_name(sig.cb);
    assert(ascii("; c=") =~= seq![SEMICOLON, SP] + seq![99u8] + seq![EQUALS]) by {
        lemma_text_c();
    }
    lemma_letter_is_tag(99);
    lemma_extend(seq![SP] + text, ascii("; c="), seq![99u8], modes);
    let lit = text + ascii("; c=");
    lemma_grouped(lit, canonicalization_name(sig.ch), ascii("/"), canonicalization_name(sig.cb));
    lemma_led(lit, modes);
    lemma_led(text, ascii("; c="));
}

proof fn lemma_tagged(text: Seq<u8>, lit: Seq<u8>, tag: Seq<u8>, val: Seq<u8>)
    requires
        always_skips(seq![SP] + text),
        is_tag_name(tag),
        lit == seq![SEMICOLON, SP] + tag + seq![EQUALS],
        no_semicolon(val),
    ensures
        always_skips(seq![SP] + (text + lit + val)),
{
    lemma_extend(seq![SP] + text, lit, tag, val);
    lemma_led(text + lit, val);
    lemma_led(text, lit);
}

proof fn lemma_required(sig: SignatureView)
    requires
        is_clean(sig),
    ensures
        always_skips(seq![SP] + required_tags(sig)),
{
    let r1 = ascii("v=1; a=") + algorithm_name(sig.a);
    lemma_algorithm(sig);
    let r2 = r1 + ascii("; c=") + canonicalization_name(sig.ch) + ascii("/")
        + canonicalization_name(sig.cb);
    lemma_modes(r1, sig);
    let r3 = r2 + ascii("; d=") + sig.d;
    assert(ascii("; d=") =~= seq![SEMICOLON, SP] + seq![100u8] + seq![EQUALS]) by {
        lemma_text_d();
    }
    lemma_letter_is_tag(100);
    lemma_tagged(r2, ascii("; d="), seq![100u8], sig.d);
    let r4 = r3 + ascii("; s=") + sig.s;
    assert(ascii("; s=") =~= seq![SEMICOLON, SP] + seq![115u8] + seq![EQUALS]) by {
        lemma_text_s();
    }
    lemma_letter_is_tag(115);
    lemma_tagged(r3, ascii("; s="), seq![115u8], sig.s);
    assert(ascii("; h=") =~= seq![SEMICOLON, SP] + seq![104u8] + seq![EQUALS]) by {
        lemma_text_h();
    }
    lemma_letter_is_tag(104);
    lemma_tagged(r4, ascii("; h="), seq![104u8], joined(sig.h, COLON));
}

proof fn lemma_with_number(text: Seq<u8>, lit: Seq<u8>, tag: Seq<u8>, n: u64)
    requires
        always_skips(text),
        is_tag_name(tag),
        lit == seq![SEMICOLON, SP] + tag + seq![EQUALS],
    ensures
        always_skips(with_number(text, lit, n)),
{
    if n != 0 {
        lemma_digits_have_no_semicolon(n as nat);
        lemma_extend(text, lit, tag, decimal_digits(n as nat));
    }
}

proof fn lemma_numbers(text: Seq<u8>, sig: SignatureView)
    requires
        always_skips(text),
        is_clean(sig),
    ensures
        always_skips(with_numbers(text, sig)),
{
    lemma_text_i();
    lemma_text_l();
    lemma_text_t();
    lemma_text_x();
    assert(ascii("; i=") =~= seq![SEMICOLON, SP] + seq![105u8] + seq![EQUALS]);
    assert(ascii("; l=") =~= seq![SEMICOLON, SP] + seq![108u8] + seq![EQUALS]);
    assert(ascii("; t=") =~= seq![SEMICOLON, SP] + seq![116u8] + seq![EQUALS]);
    assert(ascii("; x=") =~= seq![SEMICOLON, SP] + seq![120u8] + seq![EQUALS]);
    lemma_letter_is_tag(105);
    lemma_letter_is_tag(108);
    lemma_letter_is_tag(116);
    lemma_letter_is_tag(120);
    let identity = if sig.i.len() > 0 {
        text + ascii("; i=") + sig.i
    } else {
        text
    };
    if sig.i.len() > 0 {
        lemma_extend(text, ascii("; i="), seq![105u8], sig.i);
    }
    let l = with_number(identity, ascii("; l="), sig.l);
    lemma_with_number(identity, ascii("; l="), seq![108u8], sig.l);
    let t = with_number(l, ascii("; t="), sig.t);
    lemma_with_number(l, ascii("; t="), seq![116u8], sig.t);
    lemma_with_number(t, ascii("; x="), seq![120u8], sig.x);
}

proof fn lemma_options(text: Seq<u8>, sig: SignatureView)
    requires
        always_skips(text),
        is_clean(sig),
    ensures
        always_skips(with_options(text, sig)),
{
    lemma_names_have_no_semicolon(sig);
    lemma_text_r();
    lemma_text_atps();
    lemma_text_atpsh();
    lemma_text_z();
    let reporting = if sig.r {
        text + ascii("; r=y")
    } else {
        text
    };
    if sig.r {
        let lit = seq![SEMICOLON, SP, 114u8, EQUALS];
        assert(lit =~= seq![SEMICOLON, SP] + seq![114u8] + seq![EQUALS]);
        lemma_letter_is_tag(114);
        lemma_extend(text, lit, seq![114u8], seq![121u8]);
        assert(text + lit + seq![121u8] =~= text + ascii("; r=y"));
    }
    let atps = match sig.atps {
        Some(domain) => reporting + ascii("; atps=") + domain,
        None => reporting,
    };
    if sig.atps is Some {
        let tag = seq![97u8, 116u8, 112u8, 115u8];
        assert(ascii("; atps=") =~= seq![SEMICOLON, SP] + tag + seq![EQUALS]);
        lemma_letters_are_tag(tag);
        lemma_extend(reporting, ascii("; atps="), tag, sig.atps->0);
    }
    let atpsh = match sig.atpsh {
        Some(h) => atps + ascii("; atpsh=") + hash_name(h),
        None => atps,
    };
    if sig.atpsh is Some {
        let tag = seq![97u8, 116u8, 112u8, 115u8, 104u8];
        assert(ascii("; atpsh=") =~= seq![SEMICOLON, SP] + tag + seq![EQUALS]);
        lemma_letters_are_tag(tag);
        lemma_extend(atps, ascii("; atpsh="), tag, hash_name(sig.atpsh->0));
    }
    if sig.z.len() > 0 {
        assert(ascii("; z=") =~= seq![SEMICOLON, SP] + seq![122u8] + seq![EQUALS]);
        lemma_letter_is_tag(122);
        lemma_extend(atpsh, ascii("; z="), seq![122u8], joined(sig.z, BAR));
    }
}

proof fn lemma_encoded_has_no_semicolon(data: Seq<u8>)
    ensures
        no_semicolon(base64_encode(data)),
{
    crate::common::base64::lemma_encoded_chars(data);
}

proof fn lemma_body_hash(text: Seq<u8>, sig: SignatureView)
    requires
        always_skips(text),
    ensures
        always_skips(text + ascii("; bh=") + base64_encode(sig.bh)),
{
    lemma_text_bh();
    lemma_encoded_has_no_semicolon(sig.bh);
    let tag = seq![98u8, 104u8];
    assert(ascii("; bh=") =~= seq![SEMICOLON, SP] + tag + seq![EQUALS]);
    lemma_letters_are_tag(tag);
    lemma_extend(text, ascii("; bh="), tag, base64_encode(sig.bh));
}

proof fn lemma_text_crlf()
    ensures
        ascii("\r\n") == seq![13u8, 10],
{
    reveal_strlit("\r\n");
    is_ascii_chars_encode_utf8("\r\n"@);
    assert(ascii("\r\n") =~= seq![13u8, 10]);
}

proof fn lemma_numbers_led(text: Seq<u8>, sig: SignatureView)
    ensures
        seq![SP] + with_numbers(text, sig) == with_numbers(seq![SP] + text, sig),
{
    let led = seq![SP] + text;
    let identity = if sig.i.len() > 0 {
        text + ascii("; i=") + sig.i
    } else {
        text
    };
    let led_identity = if sig.i.len() > 0 {
        led + ascii("; i=") + sig.i
    } else {
        led
    };
    assert(seq![SP] + identity =~= led_identity);
    let l = with_number(identity, ascii("; l="), sig.l);
    let led_l = with_number(led_identity, ascii("; l="), sig.l);
    assert(seq![SP] + l =~= led_l);
    let t = with_number(l, ascii("; t="), sig.t);
    let led_t = with_number(led_l, ascii("; t="), sig.t);
    assert(seq![SP] + t =~= led_t);
    let x = with_number(t, ascii("; x="), sig.x);
    let led_x = with_number(led_t, ascii("; x="), sig.x);
    assert(seq![SP] + x =~= led_x);
}

proof fn lemma_options_led(text: Seq<u8>, sig: SignatureView)
    ensures
        seq![SP] + with_options(text, sig) == with_options(seq![SP] + text, sig),
{
    let led = seq![SP] + text;
    let reporting = if sig.r {
        text + ascii("; r=y")
    } else {
        text
    };
    let led_reporting = if sig.r {
        led + ascii("; r=y")
    } else {
        led
    };
    assert(seq![SP] + reporting =~= led_reporting);
    let atps = match sig.atps {
        Some(domain) => reporting + ascii("; atps=") + domain,
        None => reporting,
    };
    let led_atps = match sig.atps {
        Some(domain) => led_reporting + ascii("; atps=") + domain,
        None => led_reporting,
    };
    assert(seq![SP] + atps =~= led_atps);
    let atpsh = match sig.atpsh {
        Some(h) => atps + ascii("; atpsh=") + hash_name(h),
        None => atps,
    };
    let led_atpsh = match sig.atpsh {
        Some(h) => led_atps + ascii("; atpsh=") + hash_name(h),
        None => led_atps,
    };
    assert(seq![SP] + atpsh =~= led_atpsh);
    let z = if sig.z.len() > 0 {
        atpsh + ascii("; z=") + joined(sig.z, BAR)
    } else {
        atpsh
    };
    let led_z = if sig.z.len() > 0 {
        led_atpsh + ascii("; z=") + joined(sig.z, BAR)
    } else {
        led_atpsh
    };
    assert(seq![SP] + z =~= led_z);
}

/// The text of a signature up to its body hash, led by a space.
spec fn hashed_part(sig: SignatureView) -> Seq<u8> {
    seq![SP] + with_options(with_numbers(required_tags(sig), sig), sig) + ascii("; bh=")
        + base64_encode(sig.bh)
}

proof fn lemma_hashed_part(sig: SignatureView)
    requires
        is_clean(sig),
    ensures
        always_skips(hashed_part(sig)),
{
    let r = required_tags(sig);
    lemma_required(sig);
    lemma_numbers(seq![SP] + r, sig);
    lemma_numbers_led(r, sig);
    let n = with_numbers(r, sig);
    lemma_options(seq![SP] + n, sig);
    lemma_options_led(n, sig);
    lemma_body_hash(seq![SP] + with_options(n, sig), sig);
}

proof fn lemma_last_tag(head: Seq<u8>, encoded: Seq<u8>, end: Seq<u8>)
    requires
        no_semicolon(encoded),
        no_semicolon(end),
        always_skips(head),
    ensures
        without_signature_bytes(head + seq![SEMICOLON, SP, 98u8, EQUALS] + encoded + end) == head
            + seq![SEMICOLON, SP, 98u8, EQUALS],
{
    let rest = seq![SP, 98u8, EQUALS] + encoded + end;
    let v = head + seq![SEMICOLON] + rest;
    assert(v =~= head + seq![SEMICOLON, SP, 98u8, EQUALS] + encoded + end);
    assert(skips(head, rest));
    let p: int = head.len() as int + 1;
    let n: int = v.len() as int;
    assert forall|k: int| p <= k < n implies v[k] != SEMICOLON by {
        assert(v[k] == rest[k - p]);
        if k - p >= 3 + encoded.len() {
            assert(rest[k - p] == end[k - p - 3 - encoded.len()]);
        } else if k - p >= 3 {
            assert(rest[k - p] == encoded[k - p - 3]);
        }
    }
    lemma_first_byte_none(v, SEMICOLON, p, n);
    assert(v[p] == rest[0]);
    assert(v[p + 1] == rest[1]);
    assert(v[p + 2] == rest[2]);
    assert forall|k: int| p <= k < p + 2 implies v[k] != EQUALS by {
        assert(v[k] == rest[k - p]);
    }
    lemma_first_byte_is(v, EQUALS, p, n, p + 2);
    let tag = seq![98u8];
    assert(is_letters(tag));
    assert forall|j: int| 0 <= j < tag.len() implies v[p + 1 + j] == #[trigger] tag[j] by {}
    lemma_tag_is_trimmed(v, p, tag);
    lemma_name_b();
    assert(signature_bytes_range(v, p) == Some((p + 3, n)));
    assert(v.subrange(0, p + 3) + v.subrange(n, n) =~= head + seq![SEMICOLON, SP, 98u8, EQUALS]);
}

proof fn lemma_text_parts(sig: SignatureView)
    ensures
        seq![SP] + signature_text(sig) == hashed_part(sig) + seq![SEMICOLON, SP, 98u8, EQUALS]
            + base64_encode(sig.b),
{
    lemma_text_b();
    let x = with_options(with_numbers(required_tags(sig), sig), sig);
    let bh = ascii("; bh=") + base64_encode(sig.bh);
    assert(seq![SP] + signature_text(sig) =~= hashed_part(sig) + seq![
        SEMICOLON,
        SP,
        98u8,
        EQUALS,
    ] + base64_encode(sig.b));
}

/// The verifier takes a signature to be over what the signer signed.
///
/// Let a signature be written out as a DKIM-Signature header field, as the
/// signer does, and let none of its texts hold a semicolon. Then what the
/// verifier hands to the key for that field is what the signer handed to
/// its key, whatever the other header fields of the message are; so a key
/// that accepts what it signed itself accepts the field.
pub proof fn lemma_signer_and_verifier_agree(headers: Seq<Field>, sig: SignatureView)
    requires
        is_clean(sig),
    ensures
        verification_input(
            headers,
            (ascii("DKIM-Signature"), seq![SP] + signature_text(sig) + ascii("\r\n")),
            sig,
        ) == signing_input(headers, sig),
{
    let blank = SignatureView { b: Seq::<u8>::empty(), ..sig };
    let head = hashed_part(sig);
    let tag = seq![SEMICOLON, SP, 98u8, EQUALS];
    lemma_hashed_part(sig);
    lemma_text_parts(sig);
    lemma_text_parts(blank);
    lemma_text_crlf();
    assert(no_semicolon(base64_encode(sig.b))) by {
        lemma_encoded_has_no_semicolon(sig.b);
    }
    lemma_last_tag(head, base64_encode(sig.b), ascii("\r\n"));
    let written = seq![SP] + signature_text(sig) + ascii("\r\n");
    assert(without_signature_bytes(written) == head + tag);
    assert(unterminated(head + tag) == head + tag) by {
        assert((head + tag).last() == EQUALS);
    }
    assert(hashed_part(blank) == head);
    assert(base64_encode(blank.b) =~= Seq::<u8>::empty());
    assert(seq![SP] + signature_text(blank) =~= head + tag);
}

proof fn lemma_nth_in_range(headers: Seq<Field>, name: Seq<u8>, skip: nat)
    ensures
        nth_from_bottom(headers, name, skip) is Some ==> 0 <= nth_from_bottom(
            headers,
            name,
            skip,
        )->0 < headers.len(),
    decreases headers.len(),
{
    if headers.len() > 0 {
        lemma_nth_in_range(headers.drop_last(), name, skip);
        if skip > 0 {
            lemma_nth_in_range(headers.drop_last(), name, (skip - 1) as nat);
        }
    }
}

proof fn lemma_nth_below(own: Field, headers: Seq<Field>, name: Seq<u8>, skip: nat)
    requires
        !same_name(own.0, name),
    ensures
        nth_from_bottom(seq![own] + headers, name, skip) == match nth_from_bottom(
            headers,
            name,
            skip,
        ) {
            Some(i) => Some(i + 1),
            None => None,
        },
    decreases headers.len(),
{
    let all = seq![own] + headers;
    if headers.len() == 0 {
        assert(all.last() == own);
        assert(all.drop_last() =~= Seq::<Field>::empty());
        assert(nth_from_bottom(all.drop_last(), name, skip) is None);
    } else {
        assert(all.last() == headers.last());
        assert(all.drop_last() =~= seq![own] + headers.drop_last());
        lemma_nth_below(own, headers.drop_last(), name, skip);
        if skip > 0 {
            lemma_nth_below(own, headers.drop_last(), name, (skip - 1) as nat);
        }
    }
}

/// Whether none of the names `h` is the name `name`.
pub open spec fn names_none(h: Seq<Seq<u8>>, name: Seq<u8>) -> bool {
    forall|j: int| 0 <= j < h.len() ==> !same_name(name, #[trigger] h[j])
}

proof fn lemma_fields_below(
    own: Field,
    headers: Seq<Field>,
    h: Seq<Seq<u8>>,
    mode: Canonicalization,
    n: nat,
)
    requires
        names_none(h, own.0),
        n <= h.len(),
    ensures
        signed_fields_upto(seq![own] + headers, h, mode, n) == signed_fields_upto(
            headers,
            h,
            mode,
            n,
        ),
    decreases n,
{
    if n > 0 {
        lemma_fields_below(own, headers, h, mode, (n - 1) as nat);
        let j = n - 1;
        let skip = count_name(h.take(j), h[j]);
        assert(!same_name(own.0, h[j]));
        lemma_nth_below(own, headers, h[j], skip);
        lemma_nth_in_range(headers, h[j], skip);
        if selected(headers, h, j) is Some {
            let i = selected(headers, h, j)->0;
            assert((seq![own] + headers)[i + 1] == headers[i]);
        }
        assert(selected_field(seq![own] + headers, h, mode, j) == selected_field(
            headers,
            h,
            mode,
            j,
        ));
    }
}

/// Signing and then verifying passes.
///
/// Let a signer with the template `template`, whose texts hold no semicolon
/// and whose header list does not name the signature field itself, sign a
/// message at `now` with a key of any algorithm, and let the signature be
/// put on top of the message as the signer writes it out. Let the verifier
/// hash as the key does, and let its key accept every signature that the
/// signer's key makes. Then the body is as long as the signature asks, and
/// the verifier's conclusion for that message is `Pass`.
pub proof fn lemma_round_trip(
    headers: Seq<Field>,
    body: Seq<u8>,
    template: SignatureView,
    algorithm: Algorithm,
    now: u64,
    hash: spec_fn(Seq<u8>) -> Seq<u8>,
    sign: spec_fn(Seq<u8>) -> Seq<u8>,
    accepts: spec_fn(Seq<u8>, Seq<u8>) -> bool,
)
    requires
        is_clean(template),
        names_none(template.h, ascii("DKIM-Signature")),
        hashed_body(body, template.cb, template.l).len() <= u64::MAX,
        forall|data: Seq<u8>| #[trigger] accepts(data, sign(data)),
    ensures
        ({
            let hashed = hashed_body(body, template.cb, template.l);
            let unsigned = unsigned_view(template, algorithm, hash(hashed), hashed.len(), now);
            let sig = SignatureView { b: sign(signing_input(headers, unsigned)), ..unsigned };
            let own = (ascii("DKIM-Signature"), seq![SP] + signature_text(sig) + ascii("\r\n"));
            &&& body_hash_input(body, sig.cb, sig.l) == Some(hashed)
            &&& conclusion(
                sig,
                hash(hashed),
                accepts(verification_input(seq![own] + headers, own, sig), sig.b),
            ) == DkimResult::Pass
        }),
{
    let hashed = hashed_body(body, template.cb, template.l);
    let unsigned = unsigned_view(template, algorithm, hash(hashed), hashed.len(), now);
    let signed = signing_input(headers, unsigned);
    let sig = SignatureView { b: sign(signed), ..unsigned };
    let own = (ascii("DKIM-Signature"), seq![SP] + signature_text(sig) + ascii("\r\n"));
    lemma_same_body_hashed(body, template.cb, template.l);
    lemma_signer_and_verifier_agree(seq![own] + headers, sig);
    lemma_fields_below(own, headers, sig.h, sig.ch, sig.h.len());
    assert((SignatureView { b: Seq::<u8>::empty(), ..sig }) == (SignatureView {
        b: Seq::<u8>::empty(),
        ..unsigned
    }));
    assert(signing_input(seq![own] + headers, sig) == signed);
    assert(accepts(signed, sign(signed)));
}

/// Whether `s` holds no line feed.
pub open spec fn no_line_feed(s: Seq<u8>) -> bool {
    forall|k: int| 0 <= k < s.len() ==> #[trigger] s[k] != LF
}

/// Whether no text of the signature holds a line feed, so that its header
/// field is one line.
pub open spec fn is_one_line(sig: SignatureView) -> bool {
    &&& no_line_feed(sig.d)
    &&& no_line_feed(sig.s)
    &&& no_line_feed(sig.i)
    &&& no_line_feed(joined(sig.h, COLON))
    &&& no_line_feed(joined(sig.z, BAR))
    &&& sig.atps is Some ==> no_line_feed(sig.atps->0)
}

proof fn lemma_joined_line(a: Seq<u8>, b: Seq<u8>)
    requires
        no_line_feed(a),
        no_line_feed(b),
    ensures
        no_line_feed(a + b),
{
    assert forall|k: int| 0 <= k < (a + b).len() implies #[trigger] (a + b)[k] != LF by {
        if k >= a.len() {
            assert((a + b)[k] == b[k - a.len()]);
        } else {
            assert((a + b)[k] == a[k]);
        }
    }
}

proof fn lemma_digits_line(n: nat)
    ensures
        no_line_feed(decimal_digits(n)),
    decreases n,
{
    if n >= 10 {
        lemma_digits_line(n / 10);
    }
}

proof fn lemma_encoded_line(data: Seq<u8>)
    ensures
        no_line_feed(base64_encode(data)),
{
    crate::common::base64::lemma_encoded_chars(data);
}

proof fn lemma_required_line(sig: SignatureView)
    requires
        is_one_line(sig),
    ensures
        no_line_feed(required_tags(sig)),
{
    lemma_text_intro();
    lemma_text_c();
    lemma_text_slash();
    lemma_text_d();
    lemma_text_s();
    lemma_text_h();
    lemma_text_rsa_sha256();
    lemma_text_rsa_sha1();
    lemma_text_ed25519_sha256();
    lemma_text_relaxed();
    lemma_text_simple();
    let r1 = ascii("v=1; a=") + algorithm_name(sig.a);
    lemma_joined_line(ascii("v=1; a="), algorithm_name(sig.a));
    let r2 = r1 + ascii("; c=");
    lemma_joined_line(r1, ascii("; c="));
    let r3 = r2 + canonicalization_name(sig.ch);
    lemma_joined_line(r2, canonicalization_name(sig.ch));
    let r4 = r3 + ascii("/");
    lemma_joined_line(r3, ascii("/"));
    let r5 = r4 + canonicalization_name(sig.cb);
    lemma_joined_line(r4, canonicalization_name(sig.cb));
    let r6 = r5 + ascii("; d=");
    lemma_joined_line(r5, ascii("; d="));
    let r7 = r6 + sig.d;
    lemma_joined_line(r6, sig.d);
    let r8 = r7 + ascii("; s=");
    lemma_joined_line(r7, ascii("; s="));
    let r9 = r8 + sig.s;
    lemma_joined_line(r8, sig.s);
    let r10 = r9 + ascii("; h=");
    lemma_joined_line(r9, ascii("; h="));
    lemma_joined_line(r10, joined(sig.h, COLON));
}

proof fn lemma_number_line(text: Seq<u8>, tag: Seq<u8>, n: u64)
    requires
        no_line_feed(text),
        no_line_feed(tag),
    ensures
        no_line_feed(with_number(text, tag, n)),
{
    if n != 0 {
        lemma_digits_line(n as nat);
        lemma_joined_line(text, tag);
        lemma_joined_line(text + tag, decimal_digits(n as nat));
    }
}

proof fn lemma_numbers_line(text: Seq<u8>, sig: SignatureView)
    requires
        no_line_feed(text),
        is_one_line(sig),
    ensures
        no_line_feed(with_numbers(text, sig)),
{
    lemma_text_i();
    lemma_text_l();
    lemma_text_t();
    lemma_text_x();
    let identity = if sig.i.len() > 0 {
        text + ascii("; i=") + sig.i
    } else {
        text
    };
    if sig.i.len() > 0 {
        lemma_joined_line(text, ascii("; i="));
        lemma_joined_line(text + ascii("; i="), sig.i);
    }
    let l = with_number(identity, ascii("; l="), sig.l);
    lemma_number_line(identity, ascii("; l="), sig.l);
    let t = with_number(l, ascii("; t="), sig.t);
    lemma_number_line(l, ascii("; t="), sig.t);
    lemma_number_line(t, ascii("; x="), sig.x);
}

proof fn lemma_options_line(text: Seq<u8>, sig: SignatureView)
    requires
        no_line_feed(text),
        is_one_line(sig),
    ensures
        no_line_feed(with_options(text, sig)),
{
    lemma_text_r();
    lemma_text_atps();
    lemma_text_atpsh();
    lemma_text_z();
    lemma_text_sha256();
    lemma_text_sha1();
    let reporting = if sig.r {
        text + ascii("; r=y")
    } else {
        text
    };
    if sig.r {
        lemma_joined_line(text, ascii("; r=y"));
    }
    let atps = match sig.atps {
        Some(domain) => reporting + ascii("; atps=") + domain,
        None => reporting,
    };
    if sig.atps is Some {
        lemma_joined_line(reporting, ascii("; atps="));
        lemma_joined_line(reporting + ascii("; atps="), sig.atps->0);
    }
    let atpsh = match sig.atpsh {
        Some(h) => atps + ascii("; atpsh=") + hash_name(h),
        None => atps,
    };
    if sig.atpsh is Some {
        lemma_joined_line(atps, ascii("; atpsh="));
        lemma_joined_line(atps + ascii("; atpsh="), hash_name(sig.atpsh->0));
    }
    if sig.z.len() > 0 {
        lemma_joined_line(atpsh, ascii("; z="));
        lemma_joined_line(atpsh + ascii("; z="), joined(sig.z, BAR));
    }
}

proof fn lemma_hashes_line(text: Seq<u8>, sig: SignatureView)
    requires
        no_line_feed(text),
    ensures
        no_line_feed(with_hashes(text, sig)),
{
    assert(no_line_feed(ascii("; bh="))) by {
        lemma_text_bh();
    }
    assert(no_line_feed(ascii("; b="))) by {
        lemma_text_b();
    }
    lemma_encoded_line(sig.bh);
    lemma_encoded_line(sig.b);
    let a = text + ascii("; bh=");
    lemma_joined_line(text, ascii("; bh="));
    let b = a + base64_encode(sig.bh);
    lemma_joined_line(a, base64_encode(sig.bh));
    let c = b + ascii("; b=");
    lemma_joined_line(b, ascii("; b="));
    lemma_joined_line(c, base64_encode(sig.b));
}

proof fn lemma_text_line(sig: SignatureView)
    requires
        is_one_line(sig),
    ensures
        no_line_feed(signature_text(sig)),
{
    lemma_required_line(sig);
    let r = required_tags(sig);
    lemma_numbers_line(r, sig);
    let n = with_numbers(r, sig);
    lemma_options_line(n, sig);
    lemma_hashes_line(with_options(n, sig), sig);
}

proof fn lemma_line_end_moved(a: Seq<u8>, r: Seq<u8>, p: int)
    requires
        0 <= p <= r.len(),
    ensures
        line_end(a + r, a.len() + p) == a.len() + line_end(r, p),
    decreases r.len() - p,
{
    if p < r.len() {
        assert((a + r)[a.len() + p] == r[p]);
        if r[p] != LF {
            lemma_line_end_moved(a, r, p + 1);
        }
    }
}

proof fn lemma_line_end_in_range(r: Seq<u8>, p: int)
    requires
        0 <= p <= r.len(),
    ensures
        p <= line_end(r, p) <= r.len(),
        p < r.len() ==> p < line_end(r, p),
    decreases r.len() - p,
{
    if p < r.len() && r[p] != LF {
        lemma_line_end_in_range(r, p + 1);
    }
}

proof fn lemma_field_end_moved(a: Seq<u8>, r: Seq<u8>, p: int)
    requires
        0 <= p <= r.len(),
    ensures
        field_end(a + r, a.len() + p) == a.len() + field_end(r, p),
        p <= field_end(r, p) <= r.len(),
        p < r.len() ==> p < field_end(r, p),
    decreases r.len() - p,
{
    lemma_line_end_moved(a, r, p);
    lemma_line_end_in_range(r, p);
    let e = line_end(r, p);
    if p < e < r.len() {
        assert((a + r)[a.len() + e] == r[e]);
        if is_wsp(r[e]) {
            lemma_field_end_moved(a, r, e);
        }
    }
}

proof fn lemma_first_colon_moved(a: Seq<u8>, r: Seq<u8>, p: int, e: int)
    requires
        0 <= p <= e <= r.len(),
    ensures
        first_colon(a + r, a.len() + p, a.len() + e) == a.len() + first_colon(r, p, e),
        p <= first_colon(r, p, e) <= e,
    decreases e - p,
{
    if p < e {
        assert((a + r)[a.len() + p] == r[p]);
        if r[p] != COLON {
            lemma_first_colon_moved(a, r, p + 1, e);
        }
    }
}

proof fn lemma_fields_moved(a: Seq<u8>, r: Seq<u8>, p: int)
    requires
        0 <= p <= r.len(),
    ensures
        fields_from(a + r, a.len() + p) == fields_from(r, p),
        body_from(a + r, a.len() + p) == a.len() + body_from(r, p),
    decreases r.len() - p,
{
    let s = a + r;
    let n = a.len() as int;
    if p < r.len() {
        assert(s[n + p] == r[p]);
        if p + 1 < r.len() {
            assert(s[n + p + 1] == r[p + 1]);
        }
        assert(is_blank_at(s, n + p) == is_blank_at(r, p));
        lemma_field_end_moved(a, r, p);
        let e = field_end(r, p);
        lemma_first_colon_moved(a, r, p, e);
        let c = first_colon(r, p, e);
        lemma_fields_moved(a, r, e);
        if c < e {
            assert(s.subrange(n + p, n + c) =~= r.subrange(p, c));
            assert(s.subrange(n + c + 1, n + e) =~= r.subrange(c + 1, e));
        }
    }
}

proof fn lemma_text_name()
    ensures
        ascii("DKIM-Signature") == seq![
            68u8,
            75,
            73,
            77,
            45,
            83,
            105,
            103,
            110,
            97,
            116,
            117,
            114,
            101,
        ],
{
    reveal_strlit("DKIM-Signature");
    is_ascii_chars_encode_utf8("DKIM-Signature"@);
    assert(ascii("DKIM-Signature") =~= seq![
        68u8,
        75,
        73,
        77,
        45,
        83,
        105,
        103,
        110,
        97,
        116,
        117,
        114,
        101,
    ]);
}

proof fn lemma_text_name_led()
    ensures
        ascii("DKIM-Signature: ") == ascii("DKIM-Signature") + seq![COLON, SP],
{
    lemma_text_name();
    reveal_strlit("DKIM-Signature: ");
    is_ascii_chars_encode_utf8("DKIM-Signature: "@);
    assert(ascii("DKIM-Signature: ") =~= ascii("DKIM-Signature") + seq![COLON, SP]);
}

proof fn lemma_line_end_is(s: Seq<u8>, p: int, at: int)
    requires
        0 <= p <= at < s.len(),
        s[at] == LF,
        forall|k: int| p <= k < at ==> s[k] != LF,
    ensures
        line_end(s, p) == at + 1,
    decreases at - p,
{
    if p < at {
        lemma_line_end_is(s, p + 1, at);
    }
}

proof fn lemma_colon_is(s: Seq<u8>, p: int, e: int, at: int)
    requires
        0 <= p <= at < e <= s.len(),
        s[at] == COLON,
        forall|k: int| p <= k < at ==> s[k] != COLON,
    ensures
        first_colon(s, p, e) == at,
    decreases at - p,
{
    if p < at {
        lemma_colon_is(s, p + 1, e, at);
    }
}

spec fn is_plain_name(name: Seq<u8>) -> bool {
    &&& name.len() > 0
    &&& forall|k: int|
        0 <= k < name.len() ==> #[trigger] name[k] != COLON && name[k] != LF && name[k] != CR
}

spec fn is_line_value(value: Seq<u8>) -> bool {
    &&& value.len() > 0
    &&& value.last() == LF
    &&& forall|k: int| 0 <= k < value.len() - 1 ==> #[trigger] value[k] != LF
}

proof fn lemma_first_field(name: Seq<u8>, value: Seq<u8>, raw: Seq<u8>)
    requires
        is_plain_name(name),
        is_line_value(value),
        raw.len() == 0 || !is_wsp(raw[0]),
    ensures
        fields_from(name + seq![COLON] + value + raw, 0) == seq![(name, value)] + fields_from(raw, 0),
        body_from(name + seq![COLON] + value + raw, 0) == name.len() + 1 + value.len() + body_from(
            raw,
            0,
        ),
{
    let head = name + seq![COLON] + value;
    let s = head + raw;
    let n = head.len() as int;
    let c = name.len() as int;
    assert forall|k: int| 0 <= k < n - 1 implies s[k] != LF by {
        assert(s[k] == head[k]);
        if k > c {
            assert(head[k] == value[k - c - 1]);
        } else if k < c {
            assert(head[k] == name[k]);
        }
    }
    assert(s[n - 1] == value[value.len() - 1]);
    lemma_line_end_is(s, 0, n - 1);
    if raw.len() > 0 {
        assert(s[n] == raw[0]);
    }
    assert(field_end(s, 0) == n);
    assert forall|k: int| 0 <= k < c implies s[k] != COLON by {
        assert(s[k] == name[k]);
    }
    assert(s[c] == COLON);
    lemma_colon_is(s, 0, n, c);
    assert(s[0] == name[0]);
    assert(!is_blank_at(s, 0));
    assert(s.subrange(0, c) =~= name);
    assert(s.subrange(c + 1, n) =~= value);
    lemma_fields_moved(head, raw, 0);
}

proof fn lemma_name_shape()
    ensures
        is_plain_name(ascii("DKIM-Signature")),
{
    lemma_text_name();
}

proof fn lemma_value_shape(text: Seq<u8>)
    requires
        no_line_feed(text),
    ensures
        is_line_value(seq![SP] + text + ascii("\r\n")),
{
    lemma_text_crlf();
    let value = seq![SP] + text + ascii("\r\n");
    assert forall|k: int| 0 <= k < value.len() - 1 implies #[trigger] value[k] != LF by {
        if 1 <= k <= text.len() {
            assert(value[k] == text[k - 1]);
        }
    }
}

proof fn lemma_header_parts(text: Seq<u8>)
    ensures
        ascii("DKIM-Signature: ") + text + ascii("\r\n") == ascii("DKIM-Signature") + seq![COLON]
            + (seq![SP] + text + ascii("\r\n")),
{
    lemma_text_name_led();
    assert(ascii("DKIM-Signature: ") + text + ascii("\r\n") =~= ascii("DKIM-Signature") + seq![
        COLON,
    ] + (seq![SP] + text + ascii("\r\n")));
}

proof fn lemma_body_moved(head: Seq<u8>, raw: Seq<u8>, at: int)
    requires
        0 <= at <= raw.len(),
    ensures
        (head + raw).skip(head.len() + at) == raw.skip(at),
{
    assert((head + raw).skip(head.len() + at) =~= raw.skip(at));
}

proof fn lemma_body_in_range(r: Seq<u8>, p: int)
    requires
        0 <= p <= r.len(),
    ensures
        p <= body_from(r, p) <= r.len(),
    decreases r.len() - p,
{
    if p < r.len() {
        if r[p] != LF && !(r[p] == CR && p + 1 < r.len() && r[p + 1] == LF) {
            lemma_field_end_moved(Seq::<u8>::empty(), r, p);
            lemma_body_in_range(r, field_end(r, p));
        }
    }
}

/// A signature written on top of a message is the first header field of the
/// message that results, and changes nothing else.
///
/// Let none of the signature's texts hold a line feed, and let the message
/// not start with a space or a tab. Then the header fields of the signed
/// message are the field of the signature, as the signer writes it out, and
/// then those of the message; and the body is that of the message.
pub proof fn lemma_signed_message(sig: SignatureView, raw: Seq<u8>)
    requires
        is_one_line(sig),
        raw.len() == 0 || !is_wsp(raw[0]),
    ensures
        message_headers(signature_header(sig) + raw) == seq![
            (ascii("DKIM-Signature"), seq![SP] + signature_text(sig) + ascii("\r\n")),
        ] + message_headers(raw),
        message_body(signature_header(sig) + raw) == message_body(raw),
{
    let name = ascii("DKIM-Signature");
    let text = signature_text(sig);
    let value = seq![SP] + text + ascii("\r\n");
    let head = name + seq![COLON] + value;
    lemma_text_line(sig);
    lemma_name_shape();
    lemma_value_shape(text);
    lemma_header_parts(text);
    assert(signature_header(sig) == head);
    lemma_first_field(name, value, raw);
    lemma_body_in_range(raw, 0);
    lemma_body_moved(head, raw, body_from(raw, 0));
}

/// Whether `verifier` hashes under `algorithm` as `key` does: asked for the
/// digest of the same data, both give the same digest.
pub open spec fn hashes_alike<K: SigningKey, V: Verifier>(
    key: &K,
    verifier: &V,
    algorithm: HashAlgorithm,
) -> bool {
    forall|data: Seq<u8>, mine: Seq<u8>, theirs: Seq<u8>|
        #![trigger key_hashes(key, data, mine), verifier_hashes(verifier, algorithm, data, theirs)]
        key_hashes(key, data, mine) && verifier_hashes(verifier, algorithm, data, theirs) ==> mine
            == theirs
}

/// Whether `public_key` is, to `verifier`, the public key of `key`: asked
/// for its verdict on signature bytes that `key` gave over the same data,
/// the verifier accepts them.
pub open spec fn is_public_key_of<K: SigningKey, V: Verifier>(
    key: &K,
    verifier: &V,
    algorithm: Algorithm,
    public_key: Seq<u8>,
) -> bool {
    forall|data: Seq<u8>, bytes: Seq<u8>, accepted: bool|
        #![trigger key_signs(key, data, Ok(bytes)), verifier_judges(verifier, algorithm, public_key, data, bytes, accepted)]
        key_signs(key, data, Ok(bytes)) && verifier_judges(
            verifier,
            algorithm,
            public_key,
            data,
            bytes,
            accepted,
        ) ==> accepted
}

/// A message that was signed verifies with the matching public key.
///
/// Let a signer with the template `template`, whose texts hold neither
/// semicolon nor line feed and whose header list does not name the
/// signature field itself, have signed the message `raw` at `now` with
/// `key` under any algorithm, and let `sig` be the signature that it gave.
/// Let the signature be written on top of the message. Let the verifier
/// hash as the key does and take `public_key` for the public key of `key`.
/// Then the body of the signed message is as long as the signature asks,
/// and whatever the verifier concludes for the signature from the header
/// fields and the body of the signed message is `Pass`.
pub proof fn lemma_signed_message_passes<K: SigningKey, V: Verifier>(
    key: &K,
    verifier: &V,
    public_key: Seq<u8>,
    raw: Seq<u8>,
    template: SignatureView,
    algorithm: Algorithm,
    now: u64,
    sig: SignatureView,
    result: DkimResult,
)
    requires
        is_clean(template),
        is_one_line(template),
        names_none(template.h, ascii("DKIM-Signature")),
        raw.len() == 0 || !is_wsp(raw[0]),
        hashed_body(message_body(raw), template.cb, template.l).len() <= u64::MAX,
        is_signing(
            key,
            template,
            algorithm,
            message_headers(raw),
            message_body(raw),
            now,
            Ok(sig),
        ),
        hashes_alike(key, verifier, algorithm.hash_algorithm()),
        is_public_key_of(key, verifier, algorithm, public_key),
        is_conclusion(
            verifier,
            result,
            sig,
            public_key,
            hashed_body(message_body(raw), template.cb, template.l),
            verification_input(
                message_headers(signature_header(sig) + raw),
                message_headers(signature_header(sig) + raw)[0],
                sig,
            ),
        ),
    ensures
        body_hash_input(message_body(signature_header(sig) + raw), sig.cb, sig.l) == Some(
            hashed_body(message_body(raw), template.cb, template.l),
        ),
        result == DkimResult::Pass,
{
    let headers = message_headers(raw);
    let body = message_body(raw);
    let hashed = hashed_body(body, template.cb, template.l);
    let ok = Ok::<SignatureView, Error>(sig);
    let digest = choose|digest: Seq<u8>|
        {
            &&& #[trigger] key_hashes(key, hashed, digest)
            &&& is_signed(
                key,
                unsigned_view(template, algorithm, digest, hashed.len(), now),
                headers,
                ok,
            )
        };
    let unsigned = unsigned_view(template, algorithm, digest, hashed.len(), now);
    assert(key_hashes(key, hashed, digest) && is_signed(key, unsigned, headers, ok));
    assert(sig == (SignatureView { b: sig.b, ..unsigned }));
    let own = (ascii("DKIM-Signature"), seq![SP] + signature_text(sig) + ascii("\r\n"));
    let signed = signature_header(sig) + raw;
    lemma_signed_message(sig, raw);
    lemma_same_body_hashed(body, template.cb, template.l);
    lemma_signer_and_verifier_agree(seq![own] + headers, sig);
    lemma_fields_below(own, headers, sig.h, sig.ch, sig.h.len());
    assert((SignatureView { b: Seq::<u8>::empty(), ..sig }) == (SignatureView {
        b: Seq::<u8>::empty(),
        ..unsigned
    }));
    let input = signing_input(headers, unsigned);
    assert(verification_input(message_headers(signed), message_headers(signed)[0], sig) == input) by {
        assert(message_headers(signed)[0] == own);
        assert(signing_input(seq![own] + headers, sig) == input);
    }
    let (theirs, accepted) = choose|theirs: Seq<u8>, accepted: bool|
        #![trigger verifier_hashes(verifier, sig.a.hash_algorithm(), hashed, theirs), conclusion(sig, theirs, accepted)]
        {
            &&& verifier_hashes(verifier, sig.a.hash_algorithm(), hashed, theirs)
            &&& theirs == sig.bh ==> verifier_judges(
                verifier,
                sig.a,
                public_key,
                input,
                sig.b,
                accepted,
            )
            &&& result == conclusion(sig, theirs, accepted)
        };
    assert(verifier_hashes(verifier, algorithm.hash_algorithm(), hashed, theirs));
    assert(theirs == digest);
    assert(key_signs(key, input, Ok(sig.b)));
    assert(verifier_judges(verifier, algorithm, public_key, input, sig.b, accepted));
    assert(accepted);
}

spec fn prepend(tags: Seq<TagView>, rest: Option<Seq<TagView>>) -> Option<Seq<TagView>> {
    match rest {
        Some(r) => Some(tags + r),
        None => None,
    }
}

/// Whether `v` neither starts nor ends with white space.
pub open spec fn is_trimmed(v: Seq<u8>) -> bool {
    v.len() == 0 || (!is_fws(v[0]) && !is_fws(v.last()))
}

spec fn reads(text: Seq<u8>, tags: Seq<TagView>, rest: Seq<u8>) -> bool {
    let s = text + seq![SEMICOLON] + rest;
    tags_from(s, 0) == prepend(tags, tags_from(s, (text.len() + 1) as int))
}

spec fn always_reads(text: Seq<u8>, tags: Seq<TagView>) -> bool {
    forall|rest: Seq<u8>| #[trigger] reads(text, tags, rest)
}

proof fn lemma_value_is_trimmed(s: Seq<u8>, lo: int, hi: int, val: Seq<u8>)
    requires
        0 <= lo <= hi <= s.len(),
        val == s.subrange(lo, hi),
        is_trimmed(val),
    ensures
        trimmed(s, lo, hi) == val,
{
    if lo < hi {
        assert(s[lo] == val[0]);
        assert(s[hi - 1] == val[val.len() - 1]);
        assert(trim_start(s, lo, hi) == lo);
        assert(trim_end(s, lo, hi) == hi);
    } else {
        assert(trim_start(s, lo, hi) == lo);
        assert(trim_end(s, lo, hi) == hi);
    }
}

proof fn lemma_segment_is_read(s: Seq<u8>, p: int, tag: Seq<u8>, val: Seq<u8>, e: int)
    requires
        is_letters(tag),
        0 <= p,
        e == p + 2 + tag.len() + val.len(),
        e < s.len(),
        s[p] == SP,
        forall|j: int| 0 <= j < tag.len() ==> s[p + 1 + j] == #[trigger] tag[j],
        s[p + 1 + tag.len()] == EQUALS,
        val == s.subrange(p + 2 + tag.len(), e),
        no_semicolon(val),
        is_trimmed(val),
        s[e] == SEMICOLON,
    ensures
        tags_from(s, p) == prepend(seq![(tag, val)], tags_from(s, e + 1)),
{
    let q = p + 1 + tag.len();
    assert forall|k: int| p <= k < e implies s[k] != SEMICOLON by {
        if k > q {
            assert(s[k] == val[k - q - 1]);
        } else if p < k < q {
            assert(s[p + 1 + (k - p - 1)] == tag[k - p - 1]);
        }
    }
    lemma_first_byte_is(s, SEMICOLON, p, s.len() as int, e);
    assert forall|k: int| p <= k < q implies s[k] != EQUALS by {
        if k > p {
            assert(s[p + 1 + (k - p - 1)] == tag[k - p - 1]);
        }
    }
    lemma_first_byte_is(s, EQUALS, p, e, q);
    lemma_tag_is_trimmed(s, p, tag);
    lemma_value_is_trimmed(s, q + 1, e, val);
    assert(s[p + 1] == tag[0]);
    assert(trim_start(s, p + 1, e) == p + 1);
    assert(trim_start(s, p, e) == p + 1);
}

proof fn lemma_reads_more(
    text: Seq<u8>,
    tags: Seq<TagView>,
    lit: Seq<u8>,
    tag: Seq<u8>,
    val: Seq<u8>,
)
    requires
        always_reads(text, tags),
        is_letters(tag),
        lit == seq![SEMICOLON, SP] + tag + seq![EQUALS],
        no_semicolon(val),
        is_trimmed(val),
    ensures
        always_reads(text + lit + val, tags.push((tag, val))),
{
    assert forall|rest: Seq<u8>| #[trigger] reads(text + lit + val, tags.push((tag, val)), rest) by {
        let piece = seq![SP] + tag + seq![EQUALS] + val;
        let before = piece + seq![SEMICOLON] + rest;
        let s = text + seq![SEMICOLON] + before;
        assert(reads(text, tags, before));
        assert(text + lit + val + seq![SEMICOLON] + rest =~= s);
        let p: int = text.len() as int + 1;
        let e: int = p + piece.len() as int;
        assert forall|j: int| 0 <= j < tag.len() implies s[p + 1 + j] == #[trigger] tag[j] by {
            assert(s[p + 1 + j] == piece[1 + j]);
        }
        assert(s[p] == piece[0]);
        assert(s[p + 1 + tag.len()] == piece[1 + tag.len() as int]);
        assert(s.subrange(p + 2 + tag.len(), e) =~= val);
        lemma_segment_is_read(s, p, tag, val, e);
        let after = tags_from(s, e + 1);
        if after is Some {
            assert(tags + (seq![(tag, val)] + after->0) =~= tags.push((tag, val)) + after->0);
        }
        assert((text + lit + val).len() == e);
    }
}

proof fn lemma_reads_start(text: Seq<u8>)
    requires
        text == seq![SP, 118u8, 61u8, 49u8],
    ensures
        always_reads(text, seq![(seq![118u8], seq![49u8])]),
{
    let tags = seq![(seq![118u8], seq![49u8])];
    assert forall|rest: Seq<u8>| #[trigger] reads(text, tags, rest) by {
        let s = text + seq![SEMICOLON] + rest;
        let tag = seq![118u8];
        let val = seq![49u8];
        assert(s.subrange(3, 4) =~= val);
        lemma_segment_is_read(s, 0, tag, val, 4);
    }
}

spec fn with_num(tags: Seq<TagView>, name: Seq<u8>, n: u64) -> Seq<TagView> {
    if n != 0 {
        tags.push((name, decimal_digits(n as nat)))
    } else {
        tags
    }
}

spec fn modes_name(sig: SignatureView) -> Seq<u8> {
    canonicalization_name(sig.ch) + ascii("/") + canonicalization_name(sig.cb)
}

spec fn required_list(sig: SignatureView) -> Seq<TagView> {
    seq![(seq![118u8], seq![49u8])].push((seq![97u8], algorithm_name(sig.a))).push(
        (seq![99u8], modes_name(sig)),
    ).push((seq![100u8], sig.d)).push((seq![115u8], sig.s)).push(
        (seq![104u8], joined(sig.h, COLON)),
    )
}

spec fn numbers_list(tags: Seq<TagView>, sig: SignatureView) -> Seq<TagView> {
    let identity = if sig.i.len() > 0 {
        tags.push((seq![105u8], sig.i))
    } else {
        tags
    };
    with_num(with_num(with_num(identity, seq![108u8], sig.l), seq![116u8], sig.t), seq![120u8], sig.x)
}

spec fn options_list(tags: Seq<TagView>, sig: SignatureView) -> Seq<TagView> {
    let reporting = if sig.r {
        tags.push((seq![114u8], seq![121u8]))
    } else {
        tags
    };
    let atps = match sig.atps {
        Some(domain) => reporting.push((seq![97u8, 116u8, 112u8, 115u8], domain)),
        None => reporting,
    };
    let atpsh = match sig.atpsh {
        Some(h) => atps.push((seq![97u8, 116u8, 112u8, 115u8, 104u8], hash_name(h))),
        None => atps,
    };
    if sig.z.len() > 0 {
        atpsh.push((seq![122u8], joined(sig.z, BAR)))
    } else {
        atpsh
    }
}

spec fn hashed_list(sig: SignatureView) -> Seq<TagView> {
    options_list(numbers_list(required_list(sig), sig), sig).push(
        (seq![98u8, 104u8], base64_encode(sig.bh)),
    )
}

/// Whether the texts of the signature can stand in a tag list as they are:
/// none holds a semicolon, and none starts or ends with white space.
pub open spec fn is_plain(sig: SignatureView) -> bool {
    &&& is_clean(sig)
    &&& is_trimmed(sig.d)
    &&& is_trimmed(sig.s)
    &&& is_trimmed(sig.i)
    &&& is_trimmed(joined(sig.h, COLON))
    &&& is_trimmed(joined(sig.z, BAR))
    &&& sig.atps is Some ==> is_trimmed(sig.atps->0)
}

proof fn lemma_names_are_trimmed(sig: SignatureView)
    ensures
        is_trimmed(algorithm_name(sig.a)),
        is_trimmed(modes_name(sig)),
        sig.atpsh is Some ==> is_trimmed(hash_name(sig.atpsh->0)),
{
    lemma_text_rsa_sha256();
    lemma_text_rsa_sha1();
    lemma_text_ed25519_sha256();
    lemma_text_relaxed();
    lemma_text_simple();
    lemma_text_slash();
    lemma_text_sha256();
    lemma_text_sha1();
    let m = modes_name(sig);
    assert(m[0] == canonicalization_name(sig.ch)[0]);
    assert(m.last() == canonicalization_name(sig.cb).last());
}

proof fn lemma_digits_are_trimmed(n: nat)
    ensures
        decimal_digits(n).len() > 0,
        forall|k: int| 0 <= k < decimal_digits(n).len() ==> 48 <= #[trigger] decimal_digits(n)[k] <= 57,
        is_trimmed(decimal_digits(n)),
    decreases n,
{
    if n >= 10 {
        lemma_digits_are_trimmed(n / 10);
    }
}

proof fn lemma_encoded_is_trimmed(data: Seq<u8>)
    ensures
        is_trimmed(base64_encode(data)),
        forall|k: int|
            0 <= k < base64_encode(data).len() ==> !is_fws(#[trigger] base64_encode(data)[k]),
{
    crate::common::base64::lemma_encoded_chars(data);
}

proof fn lemma_reads_algorithm(sig: SignatureView)
    ensures
        always_reads(
            seq![SP] + (ascii("v=1; a=") + algorithm_name(sig.a)),
            seq![(seq![118u8], seq![49u8])].push((seq![97u8], algorithm_name(sig.a))),
        ),
{
    lemma_names_have_no_semicolon(sig);
    lemma_names_are_trimmed(sig);
    let start = seq![SP, 118u8, 61u8, 49u8];
    let lit = seq![SEMICOLON, SP, 97u8, EQUALS];
    lemma_reads_start(start);
    assert(lit =~= seq![SEMICOLON, SP] + seq![97u8] + seq![EQUALS]);
    lemma_reads_more(
        start,
        seq![(seq![118u8], seq![49u8])],
        lit,
        seq![97u8],
        algorithm_name(sig.a),
    );
    assert(seq![SP] + ascii("v=1; a=") =~= start + lit) by {
        lemma_text_intro();
    }
    lemma_led(ascii("v=1; a="), algorithm_name(sig.a));
}

proof fn lemma_reads_modes(text: Seq<u8>, tags: Seq<TagView>, sig: SignatureView)
    requires
        always_reads(seq![SP] + text, tags),
    ensures
        always_reads(
            seq![SP] + (text + ascii("; c=") + canonicalization_name(sig.ch) + ascii("/")
                + canonicalization_name(sig.cb)),
            tags.push((seq![99u8], modes_name(sig))),
        ),
{
    lemma_names_have_no_semicolon(sig);
    lemma_names_are_trimmed(sig);
    let modes = modes_name(sig);
    assert(ascii("; c=") =~= seq![SEMICOLON, SP] + seq![99u8] + seq![EQUALS]) by {
        lemma_text_c();
    }
    lemma_reads_more(seq![SP] + text, tags, ascii("; c="), seq![99u8], modes);
    let lit = text + ascii("; c=");
    lemma_grouped(lit, canonicalization_name(sig.ch), ascii("/"), canonicalization_name(sig.cb));
    lemma_led(lit, modes);
    lemma_led(text, ascii("; c="));
}

proof fn lemma_reads_tagged(
    text: Seq<u8>,
    tags: Seq<TagView>,
    lit: Seq<u8>,
    tag: Seq<u8>,
    val: Seq<u8>,
)
    requires
        always_reads(seq![SP] + text, tags),
        is_letters(tag),
        lit == seq![SEMICOLON, SP] + tag + seq![EQUALS],
        no_semicolon(val),
        is_trimmed(val),
    ensures
        always_reads(seq![SP] + (text + lit + val), tags.push((tag, val))),
{
    lemma_reads_more(seq![SP] + text, tags, lit, tag, val);
    lemma_led(text + lit, val);
    lemma_led(text, lit);
}

proof fn lemma_reads_required(sig: SignatureView)
    requires
        is_plain(sig),
    ensures
        always_reads(seq![SP] + required_tags(sig), required_list(sig)),
{
    let r1 = ascii("v=1; a=") + algorithm_name(sig.a);
    let l1 = seq![(seq![118u8], seq![49u8])].push((seq![97u8], algorithm_name(sig.a)));
    lemma_reads_algorithm(sig);
    let r2 = r1 + ascii("; c=") + canonicalization_name(sig.ch) + ascii("/")
        + canonicalization_name(sig.cb);
    let l2 = l1.push((seq![99u8], modes_name(sig)));
    lemma_reads_modes(r1, l1, sig);
    let r3 = r2 + ascii("; d=") + sig.d;
    let l3 = l2.push((seq![100u8], sig.d));
    assert(ascii("; d=") =~= seq![SEMICOLON, SP] + seq![100u8] + seq![EQUALS]) by {
        lemma_text_d();
    }
    lemma_reads_tagged(r2, l2, ascii("; d="), seq![100u8], sig.d);
    let r4 = r3 + ascii("; s=") + sig.s;
    let l4 = l3.push((seq![115u8], sig.s));
    assert(ascii("; s=") =~= seq![SEMICOLON, SP] + seq![115u8] + seq![EQUALS]) by {
        lemma_text_s();
    }
    lemma_reads_tagged(r3, l3, ascii("; s="), seq![115u8], sig.s);
    assert(ascii("; h=") =~= seq![SEMICOLON, SP] + seq![104u8] + seq![EQUALS]) by {
        lemma_text_h();
    }
    lemma_reads_tagged(r4, l4, ascii("; h="), seq![104u8], joined(sig.h, COLON));
}

proof fn lemma_reads_number(text: Seq<u8>, tags: Seq<TagView>, lit: Seq<u8>, tag: Seq<u8>, n: u64)
    requires
        always_reads(text, tags),
        is_letters(tag),
        lit == seq![SEMICOLON, SP] + tag + seq![EQUALS],
    ensures
        always_reads(with_number(text, lit, n), with_num(tags, tag, n)),
{
    if n != 0 {
        lemma_digits_have_no_semicolon(n as nat);
        lemma_digits_are_trimmed(n as nat);
        lemma_reads_more(text, tags, lit, tag, decimal_digits(n as nat));
    }
}

proof fn lemma_reads_numbers(text: Seq<u8>, tags: Seq<TagView>, sig: SignatureView)
    requires
        always_reads(text, tags),
        is_plain(sig),
    ensures
        always_reads(with_numbers(text, sig), numbers_list(tags, sig)),
{
    assert(ascii("; i=") =~= seq![SEMICOLON, SP] + seq![105u8] + seq![EQUALS]) by {
        lemma_text_i();
    }
    assert(ascii("; l=") =~= seq![SEMICOLON, SP] + seq![108u8] + seq![EQUALS]) by {
        lemma_text_l();
    }
    assert(ascii("; t=") =~= seq![SEMICOLON, SP] + seq![116u8] + seq![EQUALS]) by {
        lemma_text_t();
    }
    assert(ascii("; x=") =~= seq![SEMICOLON, SP] + seq![120u8] + seq![EQUALS]) by {
        lemma_text_x();
    }
    let identity = if sig.i.len() > 0 {
        text + ascii("; i=") + sig.i
    } else {
        text
    };
    let identity_list = if sig.i.len() > 0 {
        tags.push((seq![105u8], sig.i))
    } else {
        tags
    };
    if sig.i.len() > 0 {
        lemma_reads_more(text, tags, ascii("; i="), seq![105u8], sig.i);
    }
    let l = with_number(identity, ascii("; l="), sig.l);
    let l_list = with_num(identity_list, seq![108u8], sig.l);
    lemma_reads_number(identity, identity_list, ascii("; l="), seq![108u8], sig.l);
    let t = with_number(l, ascii("; t="), sig.t);
    let t_list = with_num(l_list, seq![116u8], sig.t);
    lemma_reads_number(l, l_list, ascii("; t="), seq![116u8], sig.t);
    lemma_reads_number(t, t_list, ascii("; x="), seq![120u8], sig.x);
}

proof fn lemma_reads_options(text: Seq<u8>, tags: Seq<TagView>, sig: SignatureView)
    requires
        always_reads(text, tags),
        is_plain(sig),
    ensures
        always_reads(with_options(text, sig), options_list(tags, sig)),
{
    lemma_names_have_no_semicolon(sig);
    lemma_names_are_trimmed(sig);
    let reporting = if sig.r {
        text + ascii("; r=y")
    } else {
        text
    };
    let reporting_list = if sig.r {
        tags.push((seq![114u8], seq![121u8]))
    } else {
        tags
    };
    if sig.r {
        let lit = seq![SEMICOLON, SP, 114u8, EQUALS];
        assert(lit =~= seq![SEMICOLON, SP] + seq![114u8] + seq![EQUALS]);
        lemma_reads_more(text, tags, lit, seq![114u8], seq![121u8]);
        assert(text + lit + seq![121u8] =~= text + ascii("; r=y")) by {
            lemma_text_r();
        }
    }
    let atps = match sig.atps {
        Some(domain) => reporting + ascii("; atps=") + domain,
        None => reporting,
    };
    let atps_list = match sig.atps {
        Some(domain) => reporting_list.push((seq![97u8, 116u8, 112u8, 115u8], domain)),
        None => reporting_list,
    };
    if sig.atps is Some {
        let tag = seq![97u8, 116u8, 112u8, 115u8];
        assert(ascii("; atps=") =~= seq![SEMICOLON, SP] + tag + seq![EQUALS]) by {
            lemma_text_atps();
        }
        lemma_reads_more(reporting, reporting_list, ascii("; atps="), tag, sig.atps->0);
    }
    let atpsh = match sig.atpsh {
        Some(h) => atps + ascii("; atpsh=") + hash_name(h),
        None => atps,
    };
    let atpsh_list = match sig.atpsh {
        Some(h) => atps_list.push((seq![97u8, 116u8, 112u8, 115u8, 104u8], hash_name(h))),
        None => atps_list,
    };
    if sig.atpsh is Some {
        let tag = seq![97u8, 116u8, 112u8, 115u8, 104u8];
        assert(ascii("; atpsh=") =~= seq![SEMICOLON, SP] + tag + seq![EQUALS]) by {
            lemma_text_atpsh();
        }
        lemma_reads_more(atps, atps_list, ascii("; atpsh="), tag, hash_name(sig.atpsh->0));
    }
    if sig.z.len() > 0 {
        assert(ascii("; z=") =~= seq![SEMICOLON, SP] + seq![122u8] + seq![EQUALS]) by {
            lemma_text_z();
        }
        lemma_reads_more(atpsh, atpsh_list, ascii("; z="), seq![122u8], joined(sig.z, BAR));
    }
}

proof fn lemma_reads_hashed_part(sig: SignatureView)
    requires
        is_plain(sig),
    ensures
        always_reads(hashed_part(sig), hashed_list(sig)),
{
    let r = required_tags(sig);
    lemma_reads_required(sig);
    lemma_reads_numbers(seq![SP] + r, required_list(sig), sig);
    lemma_numbers_led(r, sig);
    let n = with_numbers(r, sig);
    let n_list = numbers_list(required_list(sig), sig);
    lemma_reads_options(seq![SP] + n, n_list, sig);
    lemma_options_led(n, sig);
    let o = seq![SP] + with_options(n, sig);
    let tag = seq![98u8, 104u8];
    assert(ascii("; bh=") =~= seq![SEMICOLON, SP] + tag + seq![EQUALS]) by {
        lemma_text_bh();
    }
    lemma_encoded_has_no_semicolon(sig.bh);
    lemma_encoded_is_trimmed(sig.bh);
    lemma_reads_more(o, options_list(n_list, sig), ascii("; bh="), tag, base64_encode(sig.bh));
}

proof fn lemma_last_tag_is_read(head: Seq<u8>, tags: Seq<TagView>, encoded: Seq<u8>)
    requires
        always_reads(head, tags),
        no_semicolon(encoded),
        forall|k: int| 0 <= k < encoded.len() ==> !is_fws(#[trigger] encoded[k]),
    ensures
        tag_list(head + seq![SEMICOLON, SP, 98u8, EQUALS] + encoded + seq![CR, LF]) == Some(
            tags.push((seq![98u8], encoded)),
        ),
{
    let rest = seq![SP, 98u8, EQUALS] + encoded + seq![CR, LF];
    let v = head + seq![SEMICOLON] + rest;
    assert(v =~= head + seq![SEMICOLON, SP, 98u8, EQUALS] + encoded + seq![CR, LF]);
    assert(reads(head, tags, rest));
    let p: int = head.len() as int + 1;
    let n: int = v.len() as int;
    let q: int = p + 2;
    assert forall|k: int| p <= k < n implies v[k] != SEMICOLON by {
        assert(v[k] == rest[k - p]);
        if 3 <= k - p < 3 + encoded.len() {
            assert(rest[k - p] == encoded[k - p - 3]);
        }
    }
    lemma_first_byte_none(v, SEMICOLON, p, n);
    assert(v[p] == rest[0]);
    assert(v[p + 1] == rest[1]);
    assert(v[p + 2] == rest[2]);
    assert forall|k: int| p <= k < q implies v[k] != EQUALS by {
        assert(v[k] == rest[k - p]);
    }
    lemma_first_byte_is(v, EQUALS, p, n, q);
    let tag = seq![98u8];
    assert forall|j: int| 0 <= j < tag.len() implies v[p + 1 + j] == #[trigger] tag[j] by {}
    lemma_tag_is_trimmed(v, p, tag);
    assert(trim_start(v, p + 1, n) == p + 1);
    assert(trim_start(v, p, n) == p + 1);
    assert(v[n - 1] == LF);
    assert(v[n - 2] == CR);
    if encoded.len() > 0 {
        assert(v[q + 1] == encoded[0]);
        assert(v[n - 3] == encoded[encoded.len() - 1]);
        assert(trim_start(v, q + 1, n) == q + 1);
        assert(trim_end(v, q + 1, n - 2) == n - 2);
        assert(trim_end(v, q + 1, n - 1) == n - 2);
        assert(trim_end(v, q + 1, n) == n - 2);
        assert(v.subrange(q + 1, n - 2) =~= encoded);
    } else {
        assert(trim_start(v, n, n) == n);
        assert(trim_start(v, n - 1, n) == n);
        assert(trim_start(v, q + 1, n) == n);
        assert(trim_end(v, n, n) == n);
        assert(v.subrange(n, n) =~= encoded);
    }
    assert(trimmed(v, q + 1, n) == encoded);
    let last = seq![(tag, encoded)];
    assert(tags_from(v, p) == Some(last + Seq::<TagView>::empty()));
    assert(tags + (last + Seq::<TagView>::empty()) =~= tags.push((tag, encoded)));
}

proof fn lemma_value_pushed(tags: Seq<TagView>, name: Seq<u8>, value: Seq<u8>, wanted: Seq<u8>)
    ensures
        tag_value(tags.push((name, value)), wanted) == pick(
            tag_value(tags, wanted),
            name,
            wanted,
            value,
        ),
    decreases tags.len(),
{
    let more = tags.push((name, value));
    if tags.len() == 0 {
        assert(more.drop_first() =~= Seq::<TagView>::empty());
        assert(tag_value(more.drop_first(), wanted) is None);
    } else {
        assert(more[0] == tags[0]);
        assert(more.drop_first() =~= tags.drop_first().push((name, value)));
        lemma_value_pushed(tags.drop_first(), name, value, wanted);
    }
}

spec fn pick(old: Option<Seq<u8>>, name: Seq<u8>, wanted: Seq<u8>, value: Seq<u8>) -> Option<
    Seq<u8>,
> {
    if old is Some {
        old
    } else if name == wanted {
        Some(value)
    } else {
        None
    }
}

struct Values {
    v: Option<Seq<u8>>,
    a: Option<Seq<u8>>,
    c: Option<Seq<u8>>,
    d: Option<Seq<u8>>,
    s: Option<Seq<u8>>,
    h: Option<Seq<u8>>,
    i: Option<Seq<u8>>,
    l: Option<Seq<u8>>,
    t: Option<Seq<u8>>,
    x: Option<Seq<u8>>,
    r: Option<Seq<u8>>,
    atps: Option<Seq<u8>>,
    atpsh: Option<Seq<u8>>,
    z: Option<Seq<u8>>,
    bh: Option<Seq<u8>>,
    b: Option<Seq<u8>>,
}

spec fn values(tags: Seq<TagView>) -> Values {
    Values {
        v: tag_value(tags, seq![118u8]),
        a: tag_value(tags, seq![97u8]),
        c: tag_value(tags, seq![99u8]),
        d: tag_value(tags, seq![100u8]),
        s: tag_value(tags, seq![115u8]),
        h: tag_value(tags, seq![104u8]),
        i: tag_value(tags, seq![105u8]),
        l: tag_value(tags, seq![108u8]),
        t: tag_value(tags, seq![116u8]),
        x: tag_value(tags, seq![120u8]),
        r: tag_value(tags, seq![114u8]),
        atps: tag_value(tags, seq![97u8, 116u8, 112u8, 115u8]),
        atpsh: tag_value(tags, seq![97u8, 116u8, 112u8, 115u8, 104u8]),
        z: tag_value(tags, seq![122u8]),
        bh: tag_value(tags, seq![98u8, 104u8]),
        b: tag_value(tags, seq![98u8]),
    }
}

spec fn code(name: Seq<u8>) -> int {
    name.len() * 256 + (if name.len() > 0 {
        name[0] as int
    } else {
        0
    })
}

proof fn lemma_codes()
    ensures
        code(seq![118u8]) == 374,
        code(seq![97u8]) == 353,
        code(seq![99u8]) == 355,
        code(seq![100u8]) == 356,
        code(seq![115u8]) == 371,
        code(seq![104u8]) == 360,
        code(seq![105u8]) == 361,
        code(seq![108u8]) == 364,
        code(seq![116u8]) == 372,
        code(seq![120u8]) == 376,
        code(seq![114u8]) == 370,
        code(seq![97u8, 116u8, 112u8, 115u8]) == 1121,
        code(seq![97u8, 116u8, 112u8, 115u8, 104u8]) == 1377,
        code(seq![122u8]) == 378,
        code(seq![98u8, 104u8]) == 610,
        code(seq![98u8]) == 354,
{
}

proof fn lemma_values_pushed(tags: Seq<TagView>, name: Seq<u8>, value: Seq<u8>)
    ensures
        values(tags.push((name, value))) == (Values {
            v: pick(values(tags).v, name, seq![118u8], value),
            a: pick(values(tags).a, name, seq![97u8], value),
            c: pick(values(tags).c, name, seq![99u8], value),
            d: pick(values(tags).d, name, seq![100u8], value),
            s: pick(values(tags).s, name, seq![115u8], value),
            h: pick(values(tags).h, name, seq![104u8], value),
            i: pick(values(tags).i, name, seq![105u8], value),
            l: pick(values(tags).l, name, seq![108u8], value),
            t: pick(values(tags).t, name, seq![116u8], value),
            x: pick(values(tags).x, name, seq![120u8], value),
            r: pick(values(tags).r, name, seq![114u8], value),
            atps: pick(values(tags).atps, name, seq![97u8, 116u8, 112u8, 115u8], value),
            atpsh: pick(values(tags).atpsh, name, seq![97u8, 116u8, 112u8, 115u8, 104u8], value),
            z: pick(values(tags).z, name, seq![122u8], value),
            bh: pick(values(tags).bh, name, seq![98u8, 104u8], value),
            b: pick(values(tags).b, name, seq![98u8], value),
        }),
{
    lemma_value_pushed(tags, name, value, seq![118u8]);
    lemma_value_pushed(tags, name, value, seq![97u8]);
    lemma_value_pushed(tags, name, value, seq![99u8]);
    lemma_value_pushed(tags, name, value, seq![100u8]);
    lemma_value_pushed(tags, name, value, seq![115u8]);
    lemma_value_pushed(tags, name, value, seq![104u8]);
    lemma_value_pushed(tags, name, value, seq![105u8]);
    lemma_value_pushed(tags, name, value, seq![108u8]);
    lemma_value_pushed(tags, name, value, seq![116u8]);
    lemma_value_pushed(tags, name, value, seq![120u8]);
    lemma_value_pushed(tags, name, value, seq![114u8]);
    lemma_value_pushed(tags, name, value, seq![97u8, 116u8, 112u8, 115u8]);
    lemma_value_pushed(tags, name, value, seq![97u8, 116u8, 112u8, 115u8, 104u8]);
    lemma_value_pushed(tags, name, value, seq![122u8]);
    lemma_value_pushed(tags, name, value, seq![98u8, 104u8]);
    lemma_value_pushed(tags, name, value, seq![98u8]);
}

spec fn no_values() -> Values {
    Values {
        v: None,
        a: None,
        c: None,
        d: None,
        s: None,
        h: None,
        i: None,
        l: None,
        t: None,
        x: None,
        r: None,
        atps: None,
        atpsh: None,
        z: None,
        bh: None,
        b: None,
    }
}

spec fn required_values(sig: SignatureView) -> Values {
    Values {
        v: Some(seq![49u8]),
        a: Some(algorithm_name(sig.a)),
        c: Some(modes_name(sig)),
        d: Some(sig.d),
        s: Some(sig.s),
        h: Some(joined(sig.h, COLON)),
        ..no_values()
    }
}

spec fn number_value(n: u64) -> Option<Seq<u8>> {
    if n != 0 {
        Some(decimal_digits(n as nat))
    } else {
        None
    }
}

spec fn numbers_values(before: Values, sig: SignatureView) -> Values {
    Values {
        i: if sig.i.len() > 0 {
            Some(sig.i)
        } else {
            None
        },
        l: number_value(sig.l),
        t: number_value(sig.t),
        x: number_value(sig.x),
        ..before
    }
}

spec fn options_values(before: Values, sig: SignatureView) -> Values {
    Values {
        r: if sig.r {
            Some(seq![121u8])
        } else {
            None
        },
        atps: sig.atps,
        atpsh: match sig.atpsh {
            Some(h) => Some(hash_name(h)),
            None => None,
        },
        z: if sig.z.len() > 0 {
            Some(joined(sig.z, BAR))
        } else {
            None
        },
        ..before
    }
}

spec fn written_values(sig: SignatureView) -> Values {
    Values {
        bh: Some(base64_encode(sig.bh)),
        b: Some(base64_encode(sig.b)),
        ..options_values(numbers_values(required_values(sig), sig), sig)
    }
}

proof fn lemma_no_values()
    ensures
        values(Seq::<TagView>::empty()) == no_values(),
{
}

proof fn lemma_required_values(sig: SignatureView)
    ensures
        values(required_list(sig)) == required_values(sig),
{
    lemma_codes();
    lemma_no_values();
    let none = Seq::<TagView>::empty();
    let l0 = none.push((seq![118u8], seq![49u8]));
    assert(l0 =~= seq![(seq![118u8], seq![49u8])]);
    lemma_values_pushed(none, seq![118u8], seq![49u8]);
    let l1 = l0.push((seq![97u8], algorithm_name(sig.a)));
    lemma_values_pushed(l0, seq![97u8], algorithm_name(sig.a));
    let l2 = l1.push((seq![99u8], modes_name(sig)));
    lemma_values_pushed(l1, seq![99u8], modes_name(sig));
    let l3 = l2.push((seq![100u8], sig.d));
    lemma_values_pushed(l2, seq![100u8], sig.d);
    let l4 = l3.push((seq![115u8], sig.s));
    lemma_values_pushed(l3, seq![115u8], sig.s);
    lemma_values_pushed(l4, seq![104u8], joined(sig.h, COLON));
}

proof fn lemma_numbers_values(tags: Seq<TagView>, sig: SignatureView)
    requires
        values(tags).i is None,
        values(tags).l is None,
        values(tags).t is None,
        values(tags).x is None,
    ensures
        values(numbers_list(tags, sig)) == numbers_values(values(tags), sig),
{
    lemma_codes();
    let identity = if sig.i.len() > 0 {
        tags.push((seq![105u8], sig.i))
    } else {
        tags
    };
    if sig.i.len() > 0 {
        lemma_values_pushed(tags, seq![105u8], sig.i);
    }
    let l = with_num(identity, seq![108u8], sig.l);
    if sig.l != 0 {
        lemma_values_pushed(identity, seq![108u8], decimal_digits(sig.l as nat));
    }
    let t = with_num(l, seq![116u8], sig.t);
    if sig.t != 0 {
        lemma_values_pushed(l, seq![116u8], decimal_digits(sig.t as nat));
    }
    if sig.x != 0 {
        lemma_values_pushed(t, seq![120u8], decimal_digits(sig.x as nat));
    }
}

proof fn lemma_options_values(tags: Seq<TagView>, sig: SignatureView)
    requires
        values(tags).r is None,
        values(tags).atps is None,
        values(tags).atpsh is None,
        values(tags).z is None,
    ensures
        values(options_list(tags, sig)) == options_values(values(tags), sig),
{
    lemma_codes();
    let reporting = if sig.r {
        tags.push((seq![114u8], seq![121u8]))
    } else {
        tags
    };
    if sig.r {
        lemma_values_pushed(tags, seq![114u8], seq![121u8]);
    }
    let atps = match sig.atps {
        Some(domain) => reporting.push((seq![97u8, 116u8, 112u8, 115u8], domain)),
        None => reporting,
    };
    if sig.atps is Some {
        lemma_values_pushed(reporting, seq![97u8, 116u8, 112u8, 115u8], sig.atps->0);
    }
    let atpsh = match sig.atpsh {
        Some(h) => atps.push((seq![97u8, 116u8, 112u8, 115u8, 104u8], hash_name(h))),
        None => atps,
    };
    if sig.atpsh is Some {
        lemma_values_pushed(atps, seq![97u8, 116u8, 112u8, 115u8, 104u8], hash_name(sig.atpsh->0));
    }
    if sig.z.len() > 0 {
        lemma_values_pushed(atpsh, seq![122u8], joined(sig.z, BAR));
    }
}

proof fn lemma_written_values(sig: SignatureView)
    ensures
        values(hashed_list(sig).push((seq![98u8], base64_encode(sig.b)))) == written_values(sig),
{
    lemma_codes();
    let r = required_list(sig);
    lemma_required_values(sig);
    let n = numbers_list(r, sig);
    lemma_numbers_values(r, sig);
    let o = options_list(n, sig);
    lemma_options_values(n, sig);
    let h = o.push((seq![98u8, 104u8], base64_encode(sig.bh)));
    lemma_values_pushed(o, seq![98u8, 104u8], base64_encode(sig.bh));
    lemma_values_pushed(h, seq![98u8], base64_encode(sig.b));
}

proof fn lemma_text_one()
    ensures
        ascii("1") == seq![49u8],
{
    reveal_strlit("1");
    is_ascii_chars_encode_utf8("1"@);
    assert(ascii("1") =~= seq![49u8]);
}

proof fn lemma_text_yes()
    ensures
        ascii("y") == seq![121u8],
{
    reveal_strlit("y");
    is_ascii_chars_encode_utf8("y"@);
    assert(ascii("y") =~= seq![121u8]);
}

proof fn lemma_text_simple_simple()
    ensures
        ascii("simple/simple") == seq![115u8, 105, 109, 112, 108, 101, 47, 115, 105, 109, 112, 108, 101],
{
    reveal_strlit("simple/simple");
    is_ascii_chars_encode_utf8("simple/simple"@);
    assert(ascii("simple/simple") =~= seq![115u8, 105, 109, 112, 108, 101, 47, 115, 105, 109, 112, 108, 101]);
}

proof fn lemma_text_simple_relaxed()
    ensures
        ascii("simple/relaxed") == seq![115u8, 105, 109, 112, 108, 101, 47, 114, 101, 108, 97, 120, 101, 100],
{
    reveal_strlit("simple/relaxed");
    is_ascii_chars_encode_utf8("simple/relaxed"@);
    assert(ascii("simple/relaxed") =~= seq![115u8, 105, 109, 112, 108, 101, 47, 114, 101, 108, 97, 120, 101, 100]);
}

proof fn lemma_text_relaxed_simple()
    ensures
        ascii("relaxed/simple") == seq![114u8, 101, 108, 97, 120, 101, 100, 47, 115, 105, 109, 112, 108, 101],
{
    reveal_strlit("relaxed/simple");
    is_ascii_chars_encode_utf8("relaxed/simple"@);
    assert(ascii("relaxed/simple") =~= seq![114u8, 101, 108, 97, 120, 101, 100, 47, 115, 105, 109, 112, 108, 101]);
}

proof fn lemma_text_relaxed_relaxed()
    ensures
        ascii("relaxed/relaxed") == seq![114u8, 101, 108, 97, 120, 101, 100, 47, 114, 101, 108, 97, 120, 101, 100],
{
    reveal_strlit("relaxed/relaxed");
    is_ascii_chars_encode_utf8("relaxed/relaxed"@);
    assert(ascii("relaxed/relaxed") =~= seq![114u8, 101, 108, 97, 120, 101, 100, 47, 114, 101, 108, 97, 120, 101, 100]);
}

proof fn lemma_tag_names()
    ensures
        ascii("b") == seq![98u8],
        ascii("v") == seq![118u8],
        ascii("a") == seq![97u8],
        ascii("c") == seq![99u8],
        ascii("d") == seq![100u8],
        ascii("s") == seq![115u8],
        ascii("h") == seq![104u8],
        ascii("i") == seq![105u8],
        ascii("l") == seq![108u8],
        ascii("t") == seq![116u8],
        ascii("x") == seq![120u8],
        ascii("r") == seq![114u8],
        ascii("atps") == seq![97u8, 116u8, 112u8, 115u8],
        ascii("atpsh") == seq![97u8, 116u8, 112u8, 115u8, 104u8],
        ascii("z") == seq![122u8],
        ascii("bh") == seq![98u8, 104u8],
{
    lemma_name_b();
    assert(ascii("v") =~= seq![118u8]) by {
        reveal_strlit("v");
        is_ascii_chars_encode_utf8("v"@);
    }
    assert(ascii("a") =~= seq![97u8]) by {
        reveal_strlit("a");
        is_ascii_chars_encode_utf8("a"@);
    }
    assert(ascii("c") =~= seq![99u8]) by {
        reveal_strlit("c");
        is_ascii_chars_encode_utf8("c"@);
    }
    assert(ascii("d") =~= seq![100u8]) by {
        reveal_strlit("d");
        is_ascii_chars_encode_utf8("d"@);
    }
    assert(ascii("s") =~= seq![115u8]) by {
        reveal_strlit("s");
        is_ascii_chars_encode_utf8("s"@);
    }
    assert(ascii("h") =~= seq![104u8]) by {
        reveal_strlit("h");
        is_ascii_chars_encode_utf8("h"@);
    }
    assert(ascii("i") =~= seq![105u8]) by {
        reveal_strlit("i");
        is_ascii_chars_encode_utf8("i"@);
    }
    assert(ascii("l") =~= seq![108u8]) by {
        reveal_strlit("l");
        is_ascii_chars_encode_utf8("l"@);
    }
    assert(ascii("t") =~= seq![116u8]) by {
        reveal_strlit("t");
        is_ascii_chars_encode_utf8("t"@);
    }
    assert(ascii("x") =~= seq![120u8]) by {
        reveal_strlit("x");
        is_ascii_chars_encode_utf8("x"@);
    }
    assert(ascii("r") =~= seq![114u8]) by {
        reveal_strlit("r");
        is_ascii_chars_encode_utf8("r"@);
    }
    assert(ascii("atps") =~= seq![97u8, 116u8, 112u8, 115u8]) by {
        reveal_strlit("atps");
        is_ascii_chars_encode_utf8("atps"@);
    }
    assert(ascii("atpsh") =~= seq![97u8, 116u8, 112u8, 115u8, 104u8]) by {
        reveal_strlit("atpsh");
        is_ascii_chars_encode_utf8("atpsh"@);
    }
    assert(ascii("z") =~= seq![122u8]) by {
        reveal_strlit("z");
        is_ascii_chars_encode_utf8("z"@);
    }
    assert(ascii("bh") =~= seq![98u8, 104u8]) by {
        reveal_strlit("bh");
        is_ascii_chars_encode_utf8("bh"@);
    }
}

proof fn lemma_algorithm_reads(a: Algorithm)
    ensures
        algorithm_of(algorithm_name(a)) == Some(a),
{
    lemma_text_rsa_sha256();
    lemma_text_rsa_sha1();
    lemma_text_ed25519_sha256();
    assert(ascii("rsa-sha256").len() == 10);
    assert(ascii("rsa-sha1").len() == 8);
    assert(ascii("ed25519-sha256").len() == 14);
}

proof fn lemma_modes_read(sig: SignatureView)
    ensures
        canonicalization_of(Some(modes_name(sig))) == Some((sig.ch, sig.cb)),
{
    lemma_text_relaxed();
    lemma_text_simple();
    lemma_text_slash();
    lemma_text_simple_simple();
    lemma_text_simple_relaxed();
    lemma_text_relaxed_simple();
    lemma_text_relaxed_relaxed();
    let m = modes_name(sig);
    assert(ascii("simple").len() == 6);
    assert(ascii("relaxed").len() == 7);
    assert(ascii("simple/simple").len() == 13);
    assert(ascii("simple/relaxed").len() == 14);
    assert(ascii("relaxed/simple").len() == 14);
    assert(ascii("relaxed/relaxed").len() == 15);
    assert(ascii("simple/relaxed")[0] != ascii("relaxed/simple")[0]);
    match (sig.ch, sig.cb) {
        (Canonicalization::Simple, Canonicalization::Simple) => {
            assert(m =~= ascii("simple/simple"));
        },
        (Canonicalization::Simple, Canonicalization::Relaxed) => {
            assert(m =~= ascii("simple/relaxed"));
        },
        (Canonicalization::Relaxed, Canonicalization::Simple) => {
            assert(m =~= ascii("relaxed/simple"));
        },
        (Canonicalization::Relaxed, Canonicalization::Relaxed) => {
            assert(m =~= ascii("relaxed/relaxed"));
        },
    }
}

proof fn lemma_hash_name_reads(h: HashAlgorithm)
    ensures
        atps_hash_of(Some(hash_name(h))) == Some(Some(h)),
{
    lemma_text_sha256();
    lemma_text_sha1();
    assert(ascii("sha256").len() == 6);
    assert(ascii("sha1").len() == 4);
}

proof fn lemma_digits_value(n: nat)
    ensures
        is_decimal(decimal_digits(n)),
        decimal_value(decimal_digits(n)) == n,
    decreases n,
{
    lemma_digits_are_trimmed(n);
    let d = decimal_digits(n);
    if n >= 10 {
        lemma_digits_value(n / 10);
        assert(d.drop_last() =~= decimal_digits(n / 10));
        assert(d.last() == (48 + n % 10) as u8);
    } else {
        assert(d.drop_last() =~= Seq::<u8>::empty());
        assert(decimal_value(d.drop_last()) == 0);
    }
}

proof fn lemma_number_reads(n: u64)
    ensures
        number_of(number_value(n)) == Some(n),
{
    if n != 0 {
        lemma_digits_value(n as nat);
    }
}

/// Whether a signature can be written out and read back: its version is 1,
/// its texts are UTF-8 and can stand in a tag list as they are, its header
/// lists read back as they are written, and its identity lies within its
/// signing domain.
pub open spec fn is_readable(sig: SignatureView) -> bool {
    &&& sig.v == 1
    &&& is_plain(sig)
    &&& valid_utf8(sig.d)
    &&& valid_utf8(sig.s)
    &&& valid_utf8(sig.i)
    &&& sig.atps is Some ==> valid_utf8(sig.atps->0)
    &&& all_utf8(sig.h)
    &&& all_utf8(sig.z)
    &&& items(joined(sig.h, COLON), COLON) == sig.h
    &&& items(joined(sig.z, BAR), BAR) == sig.z
    &&& identity_within(sig.i, sig.d)
}

proof fn lemma_written_tags(sig: SignatureView)
    requires
        is_plain(sig),
    ensures
        tag_list(seq![SP] + signature_text(sig) + ascii("\r\n")) is Some,
        values(tag_list(seq![SP] + signature_text(sig) + ascii("\r\n"))->0) == written_values(sig),
{
    lemma_reads_hashed_part(sig);
    lemma_text_parts(sig);
    lemma_text_crlf();
    lemma_encoded_has_no_semicolon(sig.b);
    lemma_encoded_is_trimmed(sig.b);
    lemma_last_tag_is_read(hashed_part(sig), hashed_list(sig), base64_encode(sig.b));
    lemma_written_values(sig);
}

/// A signature that is written out reads back: reading the value of the
/// header field that states a signature gives that signature.
pub proof fn lemma_written_signature_reads_back(sig: SignatureView)
    requires
        is_readable(sig),
    ensures
        signature_of(seq![SP] + signature_text(sig) + ascii("\r\n")) == Ok::<SignatureView, Error>(
            sig,
        ),
{
    let written = seq![SP] + signature_text(sig) + ascii("\r\n");
    lemma_written_tags(sig);
    let tags = tag_list(written)->0;
    let w = written_values(sig);
    lemma_tag_names();
    lemma_text_one();
    lemma_text_yes();
    assert(tag_value(tags, ascii("v")) == w.v);
    assert(tag_value(tags, ascii("i")) == w.i);
    assert(w.v == Some(ascii("1")));
    lemma_signature_from_values(sig, tags);
}

proof fn lemma_signature_from_values(sig: SignatureView, tags: Seq<TagView>)
    requires
        is_readable(sig),
        values(tags) == written_values(sig),
    ensures
        signature_from(tags, written_values(sig).i) == Ok::<SignatureView, Error>(sig),
{
    let w = written_values(sig);
    lemma_tag_names();
    lemma_text_yes();
    lemma_algorithm_reads(sig.a);
    lemma_modes_read(sig);
    crate::common::base64::lemma_decode_encode(sig.b);
    crate::common::base64::lemma_decode_encode(sig.bh);
    lemma_number_reads(sig.l);
    lemma_number_reads(sig.t);
    lemma_number_reads(sig.x);
    if sig.atpsh is Some {
        lemma_hash_name_reads(sig.atpsh->0);
    }
    assert(or_empty(w.i) =~= sig.i);
    assert(items_of(w.z, BAR) =~= sig.z);
    assert(w.r == Some(ascii("y")) <==> sig.r) by {
        assert(seq![121u8].len() == 1);
    }
    let read = signature_from(tags, w.i);
    assert(read is Ok);
    assert(read->Ok_0.atps == sig.atps);
    assert(read->Ok_0.atpsh == sig.atpsh);
    assert(read->Ok_0 == sig);
}

/// Whether `list` can be written with `sep` between its items: no item
/// is empty, starts or ends with white space, or holds `sep`.
pub open spec fn is_list(list: Seq<Seq<u8>>, sep: u8) -> bool {
    forall|k: int|
        0 <= k < list.len() ==> (#[trigger] list[k]).len() > 0 && is_trimmed(list[k]) && forall|
            j: int,
        | 0 <= j < list[k].len() ==> list[k][j] != sep
}

spec fn lists(text: Seq<u8>, list: Seq<Seq<u8>>, sep: u8, rest: Seq<u8>) -> bool {
    let s = text + seq![sep] + rest;
    items_from(s, sep, 0) == list + items_from(s, sep, (text.len() + 1) as int)
}

spec fn always_lists(text: Seq<u8>, list: Seq<Seq<u8>>, sep: u8) -> bool {
    forall|rest: Seq<u8>| #[trigger] lists(text, list, sep, rest)
}

proof fn lemma_item_is_read(s: Seq<u8>, sep: u8, p: int, item: Seq<u8>)
    requires
        0 <= p,
        p + item.len() <= s.len(),
        item == s.subrange(p, p + item.len()),
        item.len() > 0,
        is_trimmed(item),
        forall|j: int| 0 <= j < item.len() ==> item[j] != sep,
        p + item.len() == s.len() || s[p + item.len()] == sep,
    ensures
        items_from(s, sep, p) == seq![item] + (if p + item.len() < s.len() {
            items_from(s, sep, p + item.len() + 1)
        } else {
            Seq::<Seq<u8>>::empty()
        }),
{
    let e = p + item.len();
    assert forall|k: int| p <= k < e implies s[k] != sep by {
        assert(s[k] == item[k - p]);
    }
    if e < s.len() {
        lemma_first_byte_is(s, sep, p, s.len() as int, e);
    } else {
        lemma_first_byte_none(s, sep, p, e);
    }
    lemma_value_is_trimmed(s, p, e, item);
    assert(s[p] == item[0]);
    assert(trim_start(s, p, e) == p);
}

proof fn lemma_joined_lists(list: Seq<Seq<u8>>, sep: u8)
    requires
        is_list(list, sep),
        list.len() > 0,
    ensures
        always_lists(joined(list, sep), list, sep),
    decreases list.len(),
{
    let text = joined(list, sep);
    let item = list.last();
    if list.len() == 1 {
        assert(text == list[0]);
        assert forall|rest: Seq<u8>| #[trigger] lists(text, list, sep, rest) by {
            let s = text + seq![sep] + rest;
            assert(s.subrange(0, item.len() as int) =~= item);
            lemma_item_is_read(s, sep, 0, item);
            assert(seq![item] =~= list);
        }
    } else {
        let before = list.drop_last();
        assert(is_list(before, sep)) by {
            assert forall|k: int| 0 <= k < before.len() implies (#[trigger] before[k]).len() > 0
                && is_trimmed(before[k]) && forall|j: int|
                0 <= j < before[k].len() ==> before[k][j] != sep by {
                assert(before[k] == list[k]);
            }
        }
        lemma_joined_lists(before, sep);
        let head = joined(before, sep);
        assert(text == head.push(sep) + item);
        assert forall|rest: Seq<u8>| #[trigger] lists(text, list, sep, rest) by {
            let later = item + seq![sep] + rest;
            let s = head + seq![sep] + later;
            assert(lists(head, before, sep, later));
            assert(text + seq![sep] + rest =~= s);
            let p: int = head.len() as int + 1;
            assert(s.subrange(p, p + item.len()) =~= item);
            lemma_item_is_read(s, sep, p, item);
            assert(before + (seq![item] + items_from(s, sep, p + item.len() + 1)) =~= list
                + items_from(s, sep, p + item.len() + 1));
        }
    }
}

/// A list that is written with `sep` between its items reads back as it is.
pub proof fn lemma_items_of_joined(list: Seq<Seq<u8>>, sep: u8)
    requires
        is_list(list, sep),
    ensures
        items(joined(list, sep), sep) == list,
    decreases list.len(),
{
    let text = joined(list, sep);
    if list.len() == 0 {
        assert(items(text, sep) =~= list);
    } else if list.len() == 1 {
        let item = list[0];
        assert(text.subrange(0, item.len() as int) =~= item);
        lemma_item_is_read(text, sep, 0, item);
        assert(seq![item] + Seq::<Seq<u8>>::empty() =~= list);
    } else {
        let before = list.drop_last();
        let item = list.last();
        assert(is_list(before, sep)) by {
            assert forall|k: int| 0 <= k < before.len() implies (#[trigger] before[k]).len() > 0
                && is_trimmed(before[k]) && forall|j: int|
                0 <= j < before[k].len() ==> before[k][j] != sep by {
                assert(before[k] == list[k]);
            }
        }
        lemma_joined_lists(before, sep);
        let head = joined(before, sep);
        assert(text =~= head + seq![sep] + item);
        assert(lists(head, before, sep, item));
        let p: int = head.len() as int + 1;
        assert(text.subrange(p, p + item.len()) =~= item);
        lemma_item_is_read(text, sep, p, item);
        assert(before + (seq![item] + Seq::<Seq<u8>>::empty()) =~= list);
    }
}

/// A message that was signed has `Pass` for its outcome.
///
/// Let a signer have signed the message `raw` at `now` with `key` and given
/// the signature `sig`, as in [`lemma_signed_message_passes`], and let the
/// signature be one that can be read back. Let the signature be written on
/// top of the message, and let `found` be what reading that first header
/// field gave. Let the lookup at the time `later` give a key that may be
/// used for the signature and that is, to the verifier, the public key of
/// `key`, and let the verifier hash as the key does. Then every outcome
/// for that field has the result `Pass`.
pub proof fn lemma_signed_message_outcome<K: SigningKey, V: Verifier>(
    key: &K,
    verifier: &V,
    raw: Seq<u8>,
    template: SignatureView,
    algorithm: Algorithm,
    now: u64,
    sig: SignatureView,
    lookup: LookupView,
    later: u64,
    found: &Found<'_>,
    out: DkimOutput<'_>,
)
    requires
        is_clean(template),
        is_one_line(template),
        names_none(template.h, ascii("DKIM-Signature")),
        raw.len() == 0 || !is_wsp(raw[0]),
        hashed_body(message_body(raw), template.cb, template.l).len() <= u64::MAX,
        is_signing(
            key,
            template,
            algorithm,
            message_headers(raw),
            message_body(raw),
            now,
            Ok(sig),
        ),
        is_readable(sig),
        hashes_alike(key, verifier, algorithm.hash_algorithm()),
        key_for(sig, lookup, later) is Ok,
        is_public_key_of(key, verifier, algorithm, key_for(sig, lookup, later)->Ok_0.p),
        is_reading_of(*found, message_headers(signature_header(sig) + raw)[0]),
        is_outcome(
            verifier,
            out,
            found,
            message_headers(signature_header(sig) + raw),
            message_body(signature_header(sig) + raw),
            lookup,
            later,
        ),
    ensures
        out.result == DkimResult::Pass,
{
    reveal(is_reading_of);
    let signed = signature_header(sig) + raw;
    let own = (ascii("DKIM-Signature"), seq![SP] + signature_text(sig) + ascii("\r\n"));
    let hashed = hashed_body(message_body(raw), template.cb, template.l);
    assert(is_one_line(sig) && is_clean(sig)) by {
        lemma_signed_texts(key, template, algorithm, message_headers(raw), message_body(raw), now, sig);
    }
    lemma_signed_message(sig, raw);
    assert(message_headers(signed)[0] == own);
    lemma_written_signature_reads_back(sig);
    assert(found.signature is Ok && found.signature->Ok_0@ == sig);
    lemma_same_body_hashed(message_body(raw), template.cb, template.l);
    assert(sig.cb == template.cb && sig.a == algorithm) by {
        lemma_signed_texts(key, template, algorithm, message_headers(raw), message_body(raw), now, sig);
    }
    assert(sig.l == (if template.l == 0 { 0 } else { hashed.len() as u64 })) by {
        lemma_signed_texts(key, template, algorithm, message_headers(raw), message_body(raw), now, sig);
    }
    lemma_signed_message_passes(
        key,
        verifier,
        key_for(sig, lookup, later)->Ok_0.p,
        raw,
        template,
        algorithm,
        now,
        sig,
        out.result,
    );
}

proof fn lemma_signed_texts<K: SigningKey>(
    key: &K,
    template: SignatureView,
    algorithm: Algorithm,
    headers: Seq<Field>,
    body: Seq<u8>,
    now: u64,
    sig: SignatureView,
)
    requires
        is_signing(key, template, algorithm, headers, body, now, Ok(sig)),
    ensures
        sig.d == template.d,
        sig.s == template.s,
        sig.i == template.i,
        sig.h == template.h,
        sig.z == template.z,
        sig.atps == template.atps,
        sig.cb == template.cb,
        sig.ch == template.ch,
        sig.a == algorithm,
        sig.l == (if template.l == 0 {
            0
        } else {
            hashed_body(body, template.cb, template.l).len() as u64
        }),
{
    let hashed = hashed_body(body, template.cb, template.l);
    let ok = Ok::<SignatureView, Error>(sig);
    let digest = choose|digest: Seq<u8>|
        {
            &&& #[trigger] key_hashes(key, hashed, digest)
            &&& is_signed(
                key,
                unsigned_view(template, algorithm, digest, hashed.len(), now),
                headers,
                ok,
            )
        };
    assert(is_signed(key, unsigned_view(template, algorithm, digest, hashed.len(), now), headers, ok));
}

proof fn lemma_one_signature_field(own: Field, headers: Seq<Field>)
    requires
        is_signature_field(own),
        forall|k: int| 0 <= k < headers.len() ==> !is_signature_field(#[trigger] headers[k]),
    ensures
        signature_fields(seq![own] + headers) == seq![0int],
    decreases headers.len(),
{
    let all = seq![own] + headers;
    if headers.len() == 0 {
        assert(all.last() == own);
        assert(all.drop_last() =~= Seq::<Field>::empty());
        assert(signature_fields(all.drop_last()) =~= Seq::<int>::empty());
        assert(signature_fields(all) =~= seq![0int]);
    } else {
        assert(all.last() == headers[headers.len() - 1]);
        assert(all.drop_last() =~= seq![own] + headers.drop_last());
        assert forall|k: int| 0 <= k < headers.drop_last().len() implies !is_signature_field(
            #[trigger] headers.drop_last()[k],
        ) by {
            assert(headers.drop_last()[k] == headers[k]);
        }
        lemma_one_signature_field(own, headers.drop_last());
    }
}

/// A signed message has one signature field, the one written on top of it:
/// let none of the signature's texts hold a line feed, let the message not
/// start with a space or a tab and carry no signature field itself. Then
/// the one signature field of the signed message is its first header field.
pub proof fn lemma_signed_message_has_one_signature(sig: SignatureView, raw: Seq<u8>)
    requires
        is_one_line(sig),
        raw.len() == 0 || !is_wsp(raw[0]),
        forall|k: int|
            0 <= k < message_headers(raw).len() ==> !is_signature_field(
                #[trigger] message_headers(raw)[k],
            ),
    ensures
        signature_fields(message_headers(signature_header(sig) + raw)) == seq![0int],
{
    lemma_signed_message(sig, raw);
    let own = (ascii("DKIM-Signature"), seq![SP] + signature_text(sig) + ascii("\r\n"));
    lemma_one_signature_field(own, message_headers(raw));
}

} // verus!
