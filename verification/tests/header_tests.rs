//! Tests for structured header values and the field dispatcher.

use bmail::address::{Address, DomainPart, LocalPart};
use bmail::datetime::date_time;
use bmail::header::{header_field, HeaderFieldInner};
use bmail::mime::{content_transfer_encoding, content_type, ContentTransferEncoding};
use bmail::EmailError;

#[test]
fn test_date_time_numeric_zone() {
    let input = b"Mon, 1 Jan 2024 00:00:00 +0000";
    let (rest, dt) = date_time(input, 0).unwrap();
    assert_eq!(rest, input.len());
    assert_eq!(dt.year, 2024);
    assert_eq!(dt.month, 1);
    assert_eq!(dt.day, 1);
    assert_eq!(dt.hour, 0);
    assert_eq!(dt.minute, 0);
    assert_eq!(dt.second, Some(0));
    assert!(dt.tz_east);
    assert_eq!((dt.tz_hh, dt.tz_mm), (0, 0));
}

#[test]
fn test_date_time_bad_weekday() {
    let input = b"Tue, 1 Jan 2024 00:00:00 +0000";
    match date_time(input, 0) {
        Err(EmailError::BadWeekday { weekday, .. }) => assert_eq!(weekday, 1),
        other => panic!("{:?}", other.map(|p| p.1)),
    }
}

#[test]
fn test_date_time_named_and_military_zones() {
    let (_, dt) = date_time(b"1 Jan 2024 12:30 GMT", 0).unwrap();
    assert!(dt.tz_east && dt.tz_hh == 0 && dt.tz_mm == 0);
    assert_eq!(dt.second, None);
    let (_, dt) = date_time(b"1 Jan 2024 12:30 EST", 0).unwrap();
    assert!(!dt.tz_east && dt.tz_hh == 5 && dt.tz_mm == 0);
    let (_, dt) = date_time(b"1 Jan 2024 12:30 Z", 0).unwrap();
    assert!(dt.tz_east && dt.tz_hh == 0 && dt.tz_mm == 0);
}

#[test]
fn test_date_time_bad_date() {
    match date_time(b"Fri, 30 Feb 2024 00:00:00 +0000", 0) {
        Err(EmailError::BadDate { y, m, d }) => {
            assert_eq!((y, m, d), (2024, 2, 30));
        },
        other => panic!("{:?}", other.map(|p| p.1)),
    }
}

#[test]
fn test_date_time_bad_tz_offset() {
    match date_time(b"1 Jan 2024 00:00:00 +0099", 0) {
        Err(EmailError::BadTZOffset { is_east, hh, mm }) => {
            assert!(is_east);
            assert_eq!((hh, mm), (0, 99));
        },
        other => panic!("{:?}", other.map(|p| p.1)),
    }
}

#[test]
fn test_date_time_bad_time() {
    match date_time(b"1 Jan 2024 24:00:00 +0000", 0) {
        Err(EmailError::BadDateTime { h, .. }) => assert_eq!(h, 24),
        other => panic!("{:?}", other.map(|p| p.1)),
    }
}

#[test]
fn test_addr_spec_forms() {
    let input = b"\"quoted local\"@[127.0.0.1]";
    let (rest, a) = bmail::address::addr_spec(input, 0, input.len()).unwrap();
    assert_eq!(rest, input.len());
    match a.local {
        LocalPart::QuotedString(ref b) => assert_eq!(b.0, b"quoted local".to_vec()),
        _ => panic!("expected a quoted-string local part"),
    }
    match a.domain {
        DomainPart::Literal(ref b) => assert_eq!(b.0, b"127.0.0.1".to_vec()),
        _ => panic!("expected a domain literal"),
    }
}

#[test]
fn test_mailbox_with_display_name() {
    let input = b"Ada Lovelace <ada@example.org>";
    let (rest, m) = bmail::address::mailbox(input, 0, input.len()).unwrap();
    assert_eq!(rest, input.len());
    let words = m.display_name.unwrap();
    assert_eq!(words.len(), 2);
    assert_eq!(words[0].0, b"Ada".to_vec());
    match m.addr_spec.local {
        LocalPart::DotAtom(ref b) => assert_eq!(b.0, b"ada".to_vec()),
        _ => panic!("expected a dot-atom local part"),
    }
}

#[test]
fn test_group_address() {
    let input = b"Team: ada@example.org, bob@example.org;";
    let (rest, a) = bmail::address::address(input, 0, input.len()).unwrap();
    assert_eq!(rest, input.len());
    match a {
        Address::Group { display_name, mailboxes } => {
            assert_eq!(display_name[0].0, b"Team".to_vec());
            assert_eq!(mailboxes.len(), 2);
        },
        _ => panic!("expected a group"),
    }
}

#[test]
fn test_empty_group() {
    let input = b"Undisclosed recipients:;";
    let (rest, a) = bmail::address::address(input, 0, input.len()).unwrap();
    assert_eq!(rest, input.len());
    match a {
        Address::Group { mailboxes, .. } => assert_eq!(mailboxes.len(), 0),
        _ => panic!("expected a group"),
    }
}

#[test]
fn test_address_list_compositional() {
    // parsing the comma-joined concatenation of two valid lists gives the
    // concatenation of the individual parses
    let left = b"a@b, x.y@z ";
    let right = b" \"Q\" <c@d>, Team: e@f;";
    let (lc, ll) = bmail::address::address_list(left, 0, left.len()).unwrap();
    assert_eq!(lc, left.len());
    assert_eq!(ll.len(), 2);
    let (rc, rl) = bmail::address::address_list(right, 0, right.len()).unwrap();
    assert_eq!(rc, right.len());
    assert_eq!(rl.len(), 2);
    let mut joined: Vec<u8> = left.to_vec();
    joined.push(b',');
    joined.extend_from_slice(right);
    let (jc, jl) = bmail::address::address_list(&joined, 0, joined.len()).unwrap();
    assert_eq!(jc, joined.len());
    assert_eq!(jl.len(), ll.len() + rl.len());
}

#[test]
fn test_content_type_parameters() {
    let input = b"multipart/alternative; boundary=\"XYZ\"; charset=utf-8";
    let (rest, ct) = content_type(input, 0).unwrap();
    assert_eq!(rest, input.len());
    assert_eq!(ct.ctype.0, b"multipart".to_vec());
    assert_eq!(ct.subtype.0, b"alternative".to_vec());
    assert_eq!(ct.get_parameter(b"boundary").unwrap().0, b"XYZ".to_vec());
    assert_eq!(ct.get_parameter(b"charset").unwrap().0, b"utf-8".to_vec());
    assert!(ct.get_parameter(b"missing").is_none());
}

#[test]
fn test_content_type_trailing_semicolon() {
    let input = b"text/plain;";
    let (rest, ct) = content_type(input, 0).unwrap();
    assert_eq!(rest, input.len());
    assert_eq!(ct.ctype.0, b"text".to_vec());
    assert_eq!(ct.parameters.len(), 0);
}

#[test]
fn test_content_type_duplicate_parameter_last_wins() {
    let input = b"text/plain; a=1; a=2";
    let (_, ct) = content_type(input, 0).unwrap();
    assert_eq!(ct.get_parameter(b"a").unwrap().0, b"2".to_vec());
}

#[test]
fn test_content_type_uppercase_attribute_lowered() {
    let input = b"text/plain; CharSet=latin1";
    let (_, ct) = content_type(input, 0).unwrap();
    assert_eq!(ct.get_parameter(b"charset").unwrap().0, b"latin1".to_vec());
}

#[test]
fn test_content_transfer_encoding_names() {
    let cases: [(&[u8], ContentTransferEncoding); 5] = [
        (b"7bit", ContentTransferEncoding::SevenBit),
        (b"8BIT", ContentTransferEncoding::EightBit),
        (b"binary", ContentTransferEncoding::Binary),
        (b"Base64", ContentTransferEncoding::Base64),
        (b"quoted-printable", ContentTransferEncoding::QuotedPrintable),
    ];
    for (input, expected) in cases.iter() {
        let (rest, c) = content_transfer_encoding(input, 0).unwrap();
        assert_eq!(rest, input.len());
        assert_eq!(c, *expected);
    }
    assert!(content_transfer_encoding(b"uuencode", 0).is_none());
}

#[test]
fn test_cte_is_trivial() {
    assert!(ContentTransferEncoding::SevenBit.is_trivial());
    assert!(ContentTransferEncoding::EightBit.is_trivial());
    assert!(ContentTransferEncoding::Binary.is_trivial());
    assert!(!ContentTransferEncoding::Base64.is_trivial());
    assert!(!ContentTransferEncoding::QuotedPrintable.is_trivial());
}

#[test]
fn test_folded_header_field() {
    let input = b"Subject: line1\r\n\tline2\r\n";
    let (rest, f) = header_field(input, 0, input.len()).unwrap().unwrap();
    assert_eq!(rest, input.len());
    assert_eq!(f.name().0, b"Subject".to_vec());
    assert_eq!(f.raw_value().0, b" line1\r\n\tline2".to_vec());
    assert_eq!(f.unfolded_value().0, b" line1\tline2".to_vec());
    assert_eq!(f.raw_span(), b"Subject:".len());
    match f.inner() {
        HeaderFieldInner::Unstructured(b) => {
            assert_eq!(b.0, b" line1\tline2".to_vec());
        },
        _ => panic!("expected an unstructured field"),
    }
}

#[test]
fn test_bcc_empty_parses_to_empty_list() {
    let input = b"Bcc: \r\n";
    let (_, f) = header_field(input, 0, input.len()).unwrap().unwrap();
    match f.inner() {
        HeaderFieldInner::Bcc(l) => assert_eq!(l.len(), 0),
        _ => panic!("expected a Bcc field"),
    }
}

#[test]
fn test_structured_failure_is_fatal() {
    let input = b"Date: not a date\r\n";
    assert!(header_field(input, 0, input.len()).is_err());
}
