//! Transfer- and charset-decoding collaborators. Each outside call stands
//! behind a single wrapper whose contract names what the call returns; the
//! logic around the calls is verified against those names.

use vstd::prelude::*;

verus! {

#[verifier::external_type_specification]
#[verifier::external_body]
pub struct ExBase64DecodeError(base64::DecodeError);

#[verifier::external_type_specification]
#[verifier::external_body]
pub struct ExQuotedPrintableError(quoted_printable::QuotedPrintableError);

/// What base64 decoding yields on the given bytes: the decoded payload, or
/// nothing when the input is not well-formed base64. Depends on the input
/// bytes alone.
pub uninterp spec fn b64_decoded(s: Seq<u8>) -> Option<Seq<u8>>;

/// Relies on base64::decode (standard alphabet, padding accepted): the
/// result is a function of the input bytes alone.
#[verifier::external_body]
pub fn base64_decode(input: Vec<u8>) -> (r: Result<Vec<u8>, base64::DecodeError>)
    ensures
        r is Ok <==> b64_decoded(input@) is Some,
        r matches Ok(v) ==> Some(v@) == b64_decoded(input@),
{
    base64::decode(input)
}

/// What robust quoted-printable decoding yields on the given bytes, or
/// nothing when the decoder rejects them. Depends on the input bytes alone.
pub uninterp spec fn qp_decoded(s: Seq<u8>) -> Option<Seq<u8>>;

/// Relies on quoted_printable::decode in robust mode: the result is a
/// function of the input bytes alone.
#[verifier::external_body]
pub fn qp_decode(input: Vec<u8>) -> (r: Result<Vec<u8>, quoted_printable::QuotedPrintableError>)
    ensures
        r is Ok <==> qp_decoded(input@) is Some,
        r matches Ok(v) ==> Some(v@) == qp_decoded(input@),
{
    quoted_printable::decode(input, quoted_printable::ParseMode::Robust)
}

/// Whether the WHATWG Encoding Standard knows the given charset label.
pub uninterp spec fn charset_known(label: Seq<u8>) -> bool;

/// The text that the labelled charset decodes the given bytes to (with
/// replacement of errors). Depends on the label and the bytes alone.
pub uninterp spec fn charset_decoded(label: Seq<u8>, bytes: Seq<u8>) -> Seq<char>;

/// Relies on charset::Charset::for_label, which recognizes a label exactly
/// when the Encoding Standard defines it, and on charset::Charset::decode,
/// whose result is a function of the charset and the input bytes alone.
#[verifier::external_body]
pub fn charset_decode(label: &Vec<u8>, bytes: &Vec<u8>) -> (r: Option<String>)
    ensures
        r is Some <==> charset_known(label@),
        r matches Some(t) ==> t@ == charset_decoded(label@, bytes@),
{
    charset::Charset::for_label(label.as_slice()).map(|cs: charset::Charset| {
        let (text, _, _) = cs.decode(bytes.as_slice());
        text.into_owned()
    })
}

/// The text that lossy UTF-8 decoding yields on the given bytes, invalid
/// sequences replaced. Depends on the input bytes alone.
pub uninterp spec fn utf8_lossy_chars(bytes: Seq<u8>) -> Seq<char>;

/// Relies on String::from_utf8_lossy: the result is a function of the input
/// bytes alone.
#[verifier::external_body]
pub fn utf8_lossy(bytes: &Vec<u8>) -> (r: String)
    ensures
        r@ == utf8_lossy_chars(bytes@),
{
    String::from_utf8_lossy(bytes.as_slice()).into_owned()
}

} // verus!
