//! End-to-end tests of the message parser.

use bmail::header::HeaderFieldInner;
use bmail::mime::ContentTransferEncoding;
use bmail::{parse_message, Body, EmailError};

#[test]
fn test_minimal_text_message() {
    let input = b"From: a@b\r\nTo: c@d\r\nSubject: hi\r\n\r\nhello\r\n";
    let m = parse_message(input).unwrap();
    assert_eq!(m.header().len(), 3);
    assert_eq!(m.header()[0].name().0, b"From".to_vec());
    assert_eq!(m.header()[1].name().0, b"To".to_vec());
    assert_eq!(m.header()[2].name().0, b"Subject".to_vec());
    assert!(matches!(m.header()[0].inner(), HeaderFieldInner::From(l) if l.len() == 1));
    assert!(matches!(m.header()[1].inner(), HeaderFieldInner::To(l) if l.len() == 1));
    match m.body() {
        Body::SimpleText(t) => assert_eq!(t, "hello\r\n"),
        _ => panic!("expected a text body"),
    }
    assert_eq!(m.size(), input.len());
}

#[test]
fn test_quoted_printable_body() {
    let input = b"Content-Transfer-Encoding: quoted-printable\r\n\r\nCaf=C3=A9\r\n";
    let m = parse_message(input).unwrap();
    match m.body() {
        Body::SimpleText(t) => assert_eq!(t, "Caf\u{e9}\r\n"),
        _ => panic!("expected a text body"),
    }
}

#[test]
fn test_base64_body() {
    let input = b"Content-Transfer-Encoding: base64\r\n\r\naGVsbG8=\r\n";
    let m = parse_message(input).unwrap();
    match m.body() {
        Body::SimpleText(t) => assert_eq!(t, "hello"),
        _ => panic!("expected a text body"),
    }
}

#[test]
fn test_base64_decode_error() {
    let input = b"Content-Transfer-Encoding: base64\r\n\r\n!!!!\r\n";
    match parse_message(input) {
        Err(EmailError::BodyDecode(_)) => {},
        other => panic!("{:?}", other.err()),
    }
}

#[test]
fn test_charset_decoding() {
    let input =
        b"Content-Type: text/plain; charset=iso-8859-1\r\n\r\n\xe9t\xe9\r\n";
    let m = parse_message(input).unwrap();
    match m.body() {
        Body::SimpleText(t) => assert_eq!(t, "\u{e9}t\u{e9}\r\n"),
        _ => panic!("expected a text body"),
    }
}

#[test]
fn test_utf8_lossy_fallback() {
    // an unknown charset label falls back to lossy UTF-8
    let input = b"Content-Type: text/plain; charset=no-such-label\r\n\r\n\xffhi\r\n";
    let m = parse_message(input).unwrap();
    match m.body() {
        Body::SimpleText(t) => assert_eq!(t, "\u{fffd}hi\r\n"),
        _ => panic!("expected a text body"),
    }
}

#[test]
fn test_binary_body_identity() {
    let input = b"Content-Type: application/octet-stream\r\n\r\npayload bytes\r\n";
    let m = parse_message(input).unwrap();
    match m.body() {
        Body::SimpleBinary(d) => assert_eq!(d, &b"payload bytes\r\n".to_vec()),
        _ => panic!("expected a binary body"),
    }
}

#[test]
fn test_multipart_alternative() {
    let input = b"Content-Type: multipart/alternative; boundary=\"XYZ\"\r\n\r\npre\r\n--XYZ\r\nContent-Type: text/plain\r\n\r\nA\r\n--XYZ\r\nContent-Type: text/html\r\n\r\n<p>A</p>\r\n--XYZ--\r\nepi";
    let m = parse_message(input).unwrap();
    match m.body() {
        Body::Multipart { preamble, parts, epilogue, .. } => {
            assert_eq!(preamble, &b"pre".to_vec());
            assert_eq!(epilogue, &b"epi".to_vec());
            assert_eq!(parts.len(), 2);
            match parts[0].body() {
                Body::SimpleText(t) => assert_eq!(t, "A"),
                _ => panic!("expected a text part"),
            }
            match parts[1].body() {
                Body::SimpleText(t) => assert_eq!(t, "<p>A</p>"),
                _ => panic!("expected a text part"),
            }
        },
        _ => panic!("expected a multipart body"),
    }
    assert_eq!(m.content_type_index(), Some(0));
}

#[test]
fn test_multipart_zero_parts() {
    let input = b"Content-Type: multipart/mixed; boundary=B\r\n\r\n--B--\r\ntail";
    let m = parse_message(input).unwrap();
    match m.body() {
        Body::Multipart { preamble, parts, epilogue, .. } => {
            assert_eq!(preamble, &b"".to_vec());
            assert_eq!(parts.len(), 0);
            assert_eq!(epilogue, &b"tail".to_vec());
        },
        _ => panic!("expected a multipart body"),
    }
}

#[test]
fn test_nested_multipart() {
    let input = b"Content-Type: multipart/mixed; boundary=OUT\r\n\r\n--OUT\r\nContent-Type: multipart/mixed; boundary=IN\r\n\r\n--IN\r\n\r\ninner\r\n--IN--\r\n\r\n--OUT--\r\n";
    let m = parse_message(input).unwrap();
    match m.body() {
        Body::Multipart { parts, .. } => {
            assert_eq!(parts.len(), 1);
            match parts[0].body() {
                Body::Multipart { parts: inner, .. } => {
                    assert_eq!(inner.len(), 1);
                    match inner[0].body() {
                        Body::SimpleText(t) => assert_eq!(t, "inner"),
                        _ => panic!("expected a text leaf"),
                    }
                },
                _ => panic!("expected a nested multipart"),
            }
        },
        _ => panic!("expected a multipart body"),
    }
}

#[test]
fn test_multipart_without_boundary() {
    let input = b"Content-Type: multipart/mixed\r\n\r\nx";
    match parse_message(input) {
        Err(EmailError::ContentTypeWithoutBoundary) => {},
        other => panic!("{:?}", other.err()),
    }
}

#[test]
fn test_multipart_with_nontrivial_cte() {
    let input = b"Content-Type: multipart/mixed; boundary=B\r\nContent-Transfer-Encoding: base64\r\n\r\n--B--\r\n";
    match parse_message(input) {
        Err(EmailError::MultipartWithNontrivialCte) => {},
        other => panic!("{:?}", other.err()),
    }
}

#[test]
fn test_multipart_with_trivial_cte_accepted() {
    let input =
        b"Content-Type: multipart/mixed; boundary=B\r\nContent-Transfer-Encoding: 7bit\r\n\r\n--B--\r\n";
    assert!(parse_message(input).is_ok());
}

#[test]
fn test_line_of_998_accepted_999_rejected() {
    let mut ok_input = b"Content-Type: application/octet-stream\r\n\r\n".to_vec();
    let body_start = ok_input.len();
    for _ in 0..998 {
        ok_input.push(b'x');
    }
    ok_input.push(b'\r');
    ok_input.push(b'\n');
    let m = parse_message(&ok_input).unwrap();
    match m.body() {
        Body::SimpleBinary(d) => assert_eq!(d.len(), 1000),
        _ => panic!("expected a binary body"),
    }
    let _ = body_start;

    let mut long_input = b"Content-Type: application/octet-stream\r\n\r\n".to_vec();
    for _ in 0..999 {
        long_input.push(b'x');
    }
    long_input.push(b'\r');
    long_input.push(b'\n');
    match parse_message(&long_input) {
        Err(EmailError::LineTooLong) => {},
        other => panic!("{:?}", other.err()),
    }
}

#[test]
fn test_date_header_weekday_mismatch() {
    let ok = b"Date: Mon, 1 Jan 2024 00:00:00 +0000\r\n\r\n";
    let m = parse_message(ok).unwrap();
    match m.header()[0].inner() {
        HeaderFieldInner::OrigDate(dt) => {
            assert_eq!((dt.year, dt.month, dt.day), (2024, 1, 1));
        },
        _ => panic!("expected a Date field"),
    }
    let bad = b"Date: Tue, 1 Jan 2024 00:00:00 +0000\r\n\r\n";
    match parse_message(bad) {
        Err(EmailError::BadWeekday { .. }) => {},
        other => panic!("{:?}", other.err()),
    }
}

#[test]
fn test_bcc_empty_in_message() {
    let input = b"Bcc:\r\n\r\n";
    let m = parse_message(input).unwrap();
    match m.header()[0].inner() {
        HeaderFieldInner::Bcc(l) => assert_eq!(l.len(), 0),
        _ => panic!("expected a Bcc field"),
    }
}

#[test]
fn test_lf_only_input_rejected() {
    let input = b"From: a@b\nTo: c@d\n\nbody";
    assert!(parse_message(input).is_err());
}

#[test]
fn test_lexical_error_carries_position() {
    // a header line without its CRLF terminator
    let input = b"Subject: hi";
    match parse_message(input) {
        Err(EmailError::Parse { pos }) => assert_eq!(pos, input.len()),
        other => panic!("{:?}", other.err()),
    }
}

#[test]
fn test_trivial_cte_preserves_crlf_structure() {
    let input = b"Content-Type: application/octet-stream\r\nContent-Transfer-Encoding: 8bit\r\n\r\nline1\r\nline2\r\n";
    let m = parse_message(input).unwrap();
    match m.body() {
        Body::SimpleBinary(d) => assert_eq!(d, &b"line1\r\nline2\r\n".to_vec()),
        _ => panic!("expected a binary body"),
    }
}

#[test]
fn test_cte_decode_join_strips_crlf_for_base64() {
    // a base64 payload split over two lines decodes as one
    let input = b"Content-Transfer-Encoding: base64\r\n\r\naGVs\r\nbG8=\r\n";
    let m = parse_message(input).unwrap();
    match m.body() {
        Body::SimpleText(t) => assert_eq!(t, "hello"),
        _ => panic!("expected a text body"),
    }
}

#[test]
fn test_duplicate_content_type_dispatches_on_first() {
    let input = b"Content-Type: text/plain\r\nContent-Type: application/octet-stream\r\n\r\nhi\r\n";
    let m = parse_message(input).unwrap();
    assert_eq!(m.content_type_index(), Some(0));
    assert!(matches!(m.body(), Body::SimpleText(_)));
    assert_eq!(m.header().len(), 2);
}

#[test]
fn test_size_of_nested_parts() {
    let input = b"Content-Type: multipart/mixed; boundary=B\r\n\r\n--B\r\n\r\nhi\r\n--B--\r\n";
    let m = parse_message(input).unwrap();
    assert_eq!(m.size(), input.len());
    match m.body() {
        Body::Multipart { parts, .. } => {
            // the part region is "\r\nhi" between the boundary lines
            assert_eq!(parts[0].size(), 4);
        },
        _ => panic!("expected a multipart body"),
    }
}
