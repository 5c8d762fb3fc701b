//! Tests for the lexical layer.

use bmail::lex;

#[test]
fn test_phrase() {
    let input = b"=?utf-8?Q?Register.ly?=";
    let (consumed, words) = lex::phrase(input, 0).unwrap();
    assert_eq!(consumed, input.len());
    assert!(words.len() >= 1);
}

#[test]
pub fn test_multiword_phrase() {
    let test = b"Brennan Vincent";
    let (consumed, words) = lex::phrase(test, 0).unwrap();
    assert_eq!(consumed, test.len());
    assert_eq!(words.len(), 2);
    assert_eq!(words[0].0, b"Brennan".to_vec());
    assert_eq!(words[1].0, b"Vincent".to_vec());
}

#[test]
fn test_fws() {
    let input = b"    \r\n   hi!";
    let rest = lex::fws(input, 0).unwrap();
    assert_eq!(&input[rest..], b"hi!");
}

#[test]
fn test_fws_semantic_strips_crlf() {
    let input = b"  \r\n\tx";
    let (rest, bytes) = lex::fws_semantic(input, 0).unwrap();
    assert_eq!(rest, 5);
    assert_eq!(bytes, b"  \t".to_vec());
}

#[test]
fn test_quoted_pair() {
    let (rest, ch) = lex::quoted_pair(b"\\\"x", 0).unwrap();
    assert_eq!(rest, 2);
    assert_eq!(ch, b'"');
    assert!(lex::quoted_pair(b"\\\r", 0).is_none());
}

#[test]
fn test_atom_with_cfws() {
    let input = b" (note) hello (again) ";
    let (rest, value) = lex::atom(input, 0).unwrap();
    assert_eq!(rest, input.len());
    assert_eq!(value, b"hello".to_vec());
}

#[test]
fn test_dot_atom() {
    let input = b"mail.example.org";
    let (rest, value) = lex::dot_atom(input, 0).unwrap();
    assert_eq!(rest, input.len());
    assert_eq!(value, b"mail.example.org".to_vec());
}

#[test]
fn test_quoted_string_decodes_pairs() {
    let input = b"\"a\\\"b\" ";
    let (rest, value) = lex::quoted_string(input, 0).unwrap();
    assert_eq!(rest, input.len());
    assert_eq!(value.0, b"a\"b".to_vec());
}

#[test]
fn test_quoted_string_folding() {
    // a fold inside the quotes keeps the whitespace, drops the CRLF
    let input = b"\"one\r\n two\"";
    let (rest, value) = lex::quoted_string(input, 0).unwrap();
    assert_eq!(rest, input.len());
    assert_eq!(value.0, b"one two".to_vec());
}

#[test]
fn test_comment_nesting_depth_32() {
    let mut input: Vec<u8> = Vec::new();
    for _ in 0..32 {
        input.push(b'(');
    }
    for _ in 0..32 {
        input.push(b')');
    }
    let end = input.len();
    let rest = lex::comment_at(&input, 0, end).unwrap();
    assert_eq!(rest, end);
}

#[test]
fn test_unstructured_folds_to_space() {
    let input = b"line1\r\n\tline2  ";
    let (rest, value) = lex::unstructured(input, 0);
    assert_eq!(rest, input.len());
    assert_eq!(value.0, b"line1 line2  ".to_vec());
}

#[test]
fn test_quote_round_trip() {
    let payload = b"say \"hi\"\\now";
    let quoted = bmail::laws::quote_payload(payload);
    let (rest, value) = lex::quoted_string(&quoted, 0).unwrap();
    assert_eq!(rest, quoted.len());
    assert_eq!(value.0, payload.to_vec());
}

#[test]
fn test_byte_predicates() {
    assert!(lex::is_vchar(b'!') && !lex::is_vchar(b' '));
    assert!(lex::is_wsp(b' ') && lex::is_wsp(b'\t') && !lex::is_wsp(b'a'));
    assert!(lex::is_atext(b'a') && !lex::is_atext(b'@'));
    assert!(lex::is_special(b'@') && !lex::is_special(b'a'));
    assert!(lex::is_qtext(b'a') && !lex::is_qtext(b'"') && !lex::is_qtext(b'\\'));
    assert!(lex::is_ctext(b'a') && !lex::is_ctext(b'(') && !lex::is_ctext(b')'));
    assert!(lex::is_quotable(b' ') && !lex::is_quotable(b'\r'));
    assert!(lex::is_non_crlf(b'a') && !lex::is_non_crlf(b'\r') && !lex::is_non_crlf(b'\n'));
    assert!(lex::is_token_ch(b'a') && !lex::is_token_ch(b'='));
    assert!(lex::is_content_type_ch(b'a') && !lex::is_content_type_ch(b'/'));
}
