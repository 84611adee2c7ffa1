use mail_auth::dkim::canonicalize::{canonicalize_body, canonicalize_header};
use mail_auth::dkim::headers::{canonicalize_signed_fields, select_header, Message};
use mail_auth::dkim::Canonicalization;

fn relaxed_block(block: &[u8]) -> Vec<u8> {
    let message = Message::parse(block);
    let mut out = Vec::new();
    for header in &message.headers {
        out.extend_from_slice(&canonicalize_header(
            header.name,
            header.value,
            Canonicalization::Relaxed,
        ));
    }
    out
}

#[test]
fn relaxed_header_block_example() {
    assert_eq!(
        relaxed_block(b"From: a@x.com\r\nSubject:  Hi \r\n"),
        b"from:a@x.com\r\nsubject:Hi\r\n".to_vec()
    );
}

#[test]
fn empty_body_simple_is_one_crlf() {
    let out = canonicalize_body(b"", Canonicalization::Simple);
    assert_eq!(out, b"\r\n".to_vec());
    assert_eq!(out.len(), 2);
}

#[test]
fn empty_body_relaxed_is_empty() {
    assert_eq!(canonicalize_body(b"", Canonicalization::Relaxed), Vec::<u8>::new());
    assert_eq!(canonicalize_body(b"\r\n\r\n", Canonicalization::Relaxed), Vec::<u8>::new());
    assert_eq!(canonicalize_body(b" \t \r\n", Canonicalization::Relaxed), Vec::<u8>::new());
}

#[test]
fn simple_body_drops_trailing_empty_lines() {
    assert_eq!(
        canonicalize_body(b" C \r\nD \t E\r\n\r\n\r\n", Canonicalization::Simple),
        b" C \r\nD \t E\r\n".to_vec()
    );
    assert_eq!(canonicalize_body(b"\r\n\r\n", Canonicalization::Simple), b"\r\n".to_vec());
}

#[test]
fn relaxed_body_collapses_and_strips() {
    assert_eq!(
        canonicalize_body(b" C \r\nD \t E\r\n\r\n\r\n", Canonicalization::Relaxed),
        b" C\r\nD E\r\n".to_vec()
    );
}

#[test]
fn body_without_final_line_ending_gets_one() {
    assert_eq!(canonicalize_body(b"abc", Canonicalization::Simple), b"abc\r\n".to_vec());
    assert_eq!(canonicalize_body(b"abc", Canonicalization::Relaxed), b"abc\r\n".to_vec());
}

#[test]
fn bare_line_feeds_become_crlf() {
    assert_eq!(canonicalize_body(b"a\nb\n", Canonicalization::Simple), b"a\r\nb\r\n".to_vec());
    assert_eq!(canonicalize_body(b"a\n\nb\n", Canonicalization::Relaxed), b"a\r\n\r\nb\r\n".to_vec());
}

#[test]
fn relaxed_drops_a_final_line_of_white_space_only() {
    assert_eq!(canonicalize_body(b"a\r\n  \r\n", Canonicalization::Relaxed), b"a\r\n".to_vec());
}

#[test]
fn body_canonicalization_is_idempotent() {
    let bodies: [&[u8]; 8] = [
        b"",
        b"\r\n",
        b"a",
        b"a \t b  \r\n\r\n",
        b"  lead\r\n\ttab\r\n \r\n",
        b"x\ny\r\n\r\n\r\n",
        b"\r\n\r\ntext\r\n",
        b"one\rtwo\r\n",
    ];
    for body in bodies {
        for mode in [Canonicalization::Simple, Canonicalization::Relaxed] {
            let once = canonicalize_body(body, mode);
            let twice = canonicalize_body(&once, mode);
            assert_eq!(once, twice);
        }
    }
}

#[test]
fn simple_header_passes_through() {
    assert_eq!(
        canonicalize_header(b"Subject", b"  Hi \r\n", Canonicalization::Simple),
        b"Subject:  Hi \r\n".to_vec()
    );
    assert_eq!(
        canonicalize_header(b"Subject", b" a\n b\n", Canonicalization::Simple),
        b"Subject: a\r\n b\r\n".to_vec()
    );
}

#[test]
fn relaxed_header_unfolds_and_trims() {
    assert_eq!(
        canonicalize_header(b"SUBJect ", b" \t a\r\n\t b  c \r\n", Canonicalization::Relaxed),
        b"subject:a b c\r\n".to_vec()
    );
}

#[test]
fn relaxed_header_without_terminator_gets_none() {
    assert_eq!(
        canonicalize_header(b"DKIM-Signature", b" v=1; b=", Canonicalization::Relaxed),
        b"dkim-signature:v=1; b=".to_vec()
    );
}

#[test]
fn message_is_parted_at_the_first_empty_line() {
    let message = Message::parse(b"A: 1\r\nB: 2\r\n folded\r\n\r\nbody\r\n\r\nmore");
    assert_eq!(message.headers.len(), 2);
    assert_eq!(message.headers[0].name, b"A");
    assert_eq!(message.headers[0].value, b" 1\r\n");
    assert_eq!(message.headers[1].name, b"B");
    assert_eq!(message.headers[1].value, b" 2\r\n folded\r\n");
    assert_eq!(message.body, b"body\r\n\r\nmore");
}

#[test]
fn message_without_body_has_an_empty_body() {
    let message = Message::parse(b"A: 1\r\n");
    assert_eq!(message.headers.len(), 1);
    assert_eq!(message.body, b"");
    let none = Message::parse(b"");
    assert_eq!(none.headers.len(), 0);
    assert_eq!(none.body, b"");
}

#[test]
fn line_without_colon_is_no_header() {
    let message = Message::parse(b"junk\r\nA: 1\r\n\r\nb");
    assert_eq!(message.headers.len(), 1);
    assert_eq!(message.headers[0].name, b"A");
    assert_eq!(message.body, b"b");
}

#[test]
fn repeated_names_select_from_the_bottom_up() {
    let message = Message::parse(b"Received: one\r\nFrom: a\r\nReceived: two\r\nReceived: three\r\n\r\n");
    let h = vec![
        "received".to_string(),
        "From".to_string(),
        "Received".to_string(),
        "RECEIVED".to_string(),
        "Received".to_string(),
        "Subject".to_string(),
    ];
    assert_eq!(select_header(&message.headers, &h, 0), Some(3));
    assert_eq!(select_header(&message.headers, &h, 1), Some(1));
    assert_eq!(select_header(&message.headers, &h, 2), Some(2));
    assert_eq!(select_header(&message.headers, &h, 3), Some(0));
    assert_eq!(select_header(&message.headers, &h, 4), None);
    assert_eq!(select_header(&message.headers, &h, 5), None);
    assert_eq!(
        canonicalize_signed_fields(&message.headers, &h, Canonicalization::Relaxed),
        b"received:three\r\nfrom:a\r\nreceived:two\r\nreceived:one\r\n".to_vec()
    );
}

#[test]
fn relaxed_header_form_is_its_own_form() {
    let fields: [(&[u8], &[u8]); 5] = [
        (b"From", b" a@x.com\r\n"),
        (b"SUBJECT ", b"  Hi \r\n"),
        (b"X-Folded", b" one\r\n\t two  three \r\n"),
        (b"DKIM-Signature", b" v=1;  b="),
        (b"Empty", b"\r\n"),
    ];
    for (name, value) in fields {
        let once = canonicalize_header(name, value, Canonicalization::Relaxed);
        let colon = once.iter().position(|b| *b == b':').unwrap();
        let twice =
            canonicalize_header(&once[..colon], &once[colon + 1..], Canonicalization::Relaxed);
        assert_eq!(once, twice);
    }
    assert_eq!(relaxed_block(b"from:a@x.com\r\nsubject:Hi\r\n"), b"from:a@x.com\r\nsubject:Hi\r\n".to_vec());
}
