//! The message assembler: the header block, body-mode selection, leaf-body
//! transfer and charset decoding, and the multipart scanner, which re-enters
//! the message parser for each nested part.

use vstd::prelude::*;
use crate::lex::{crlf_at, run_end, PredKind, lemma_run_end, run_pred};
use crate::util::{eq_ignore_case, eq_ignore_ascii_case, copy_range};
use crate::header::{
    HeaderField, AbsHeaderField, HeaderFieldInner, AbsHeaderFieldInner, header_field,
    header_field_parse,
};
use crate::mime::{ContentTransferEncoding, cte_decoded, params_map};
use crate::codec::{utf8_lossy, charset_decode, utf8_lossy_chars, charset_decoded, charset_known};
use crate::error::{AbsError, EmailError};
use crate::ByteString;

verus! {

// ---------------------------------------------------------------------------
// Message and body
// ---------------------------------------------------------------------------

/// The decoded body of a message.
pub enum Body {
    /// A charset-decoded text payload.
    SimpleText(String),
    /// Transfer-decoded bytes without charset interpretation.
    SimpleBinary(Vec<u8>),
    /// A multipart container; `part_spans` records, in ghost form, the byte
    /// region of the parsed input that each part was read from.
    Multipart {
        preamble: Vec<u8>,
        parts: Vec<Message>,
        epilogue: Vec<u8>,
        part_spans: Ghost<Seq<(int, int)>>,
        first_at_start: Ghost<bool>,
    },
}

/// A parsed message: its header fields in order, the index of the first
/// Content-Type field, its decoded body, and the byte count of the region
/// it was parsed from.
pub struct Message {
    header: Vec<HeaderField>,
    content_type: Option<usize>,
    body: Body,
    size: usize,
}

/// Mathematical images of `Body` and `Message`.
pub enum AbsBody {
    Text(Seq<char>),
    Binary(Seq<u8>),
    Multipart {
        preamble: Seq<u8>,
        parts: Seq<AbsMessage>,
        epilogue: Seq<u8>,
        spans: Seq<(int, int)>,
        first_at_start: bool,
    },
}

pub struct AbsMessage {
    pub header: Seq<AbsHeaderField>,
    pub content_type: Option<int>,
    pub body: AbsBody,
    pub size: int,
}

pub closed spec fn abs_message(m: Message) -> AbsMessage
    decreases m,
{
    AbsMessage {
        header: m.header@.map_values(|f: HeaderField| f@),
        content_type: match m.content_type {
            Some(i) => Some(i as int),
            None => None,
        },
        body: abs_body(m.body),
        size: m.size as int,
    }
}

pub closed spec fn abs_body(b: Body) -> AbsBody
    decreases b,
{
    match b {
        Body::SimpleText(t) => AbsBody::Text(t@),
        Body::SimpleBinary(v) => AbsBody::Binary(v@),
        Body::Multipart { preamble, parts, epilogue, part_spans, first_at_start } => {
            AbsBody::Multipart {
                preamble: preamble@,
                parts: abs_parts(parts@),
                epilogue: epilogue@,
                spans: part_spans@,
                first_at_start: first_at_start@,
            }
        },
    }
}

pub closed spec fn abs_parts(f: Seq<Message>) -> Seq<AbsMessage>
    decreases f,
{
    if f.len() == 0 {
        Seq::empty()
    } else {
        seq![abs_message(f[0])] + abs_parts(f.drop_first())
    }
}

impl View for Message {
    type V = AbsMessage;

    open spec fn view(&self) -> AbsMessage {
        abs_message(*self)
    }
}

impl View for Body {
    type V = AbsBody;

    open spec fn view(&self) -> AbsBody {
        abs_body(*self)
    }
}

pub proof fn lemma_abs_parts_len(f: Seq<Message>)
    ensures
        abs_parts(f).len() == f.len(),
        forall|i: int| 0 <= i < f.len() ==> abs_parts(f)[i] == abs_message(#[trigger] f[i]),
    decreases f,
{
    if f.len() > 0 {
        lemma_abs_parts_len(f.drop_first());
        assert forall|i: int| 0 <= i < f.len() implies abs_parts(f)[i] == abs_message(
            #[trigger] f[i],
        ) by {
            if i > 0 {
                assert(f.drop_first()[i - 1] == f[i]);
                assert(abs_parts(f)[i] == abs_parts(f.drop_first())[i - 1]);
            }
        }
    }
}

impl Message {
    pub(crate) fn new(
        header: Vec<HeaderField>,
        content_type: Option<usize>,
        body: Body,
        size: usize,
    ) -> (r: Message)
        ensures
            r@.header == header@.map_values(|f: HeaderField| f@),
            r@.content_type == (match content_type {
                Some(i) => Some(i as int),
                None => None::<int>,
            }),
            r@.body == body@,
            r@.size == size as int,
    {
        Message { header, content_type, body, size }
    }

    /// The header fields, in order of appearance.
    pub fn header(&self) -> (r: &Vec<HeaderField>)
        ensures
            r@.map_values(|f: HeaderField| f@) == self@.header,
    {
        &self.header
    }

    /// The index of the first Content-Type field, if any.
    pub fn content_type_index(&self) -> (r: Option<usize>)
        ensures
            self@.content_type is Some <==> r is Some,
            r matches Some(i) ==> self@.content_type == Some(i as int),
    {
        self.content_type
    }

    /// The decoded body.
    pub fn body(&self) -> (r: &Body)
        ensures
            r@ == self@.body,
    {
        &self.body
    }

    /// How many bytes of the input this message was parsed from.
    pub fn size(&self) -> (r: usize)
        ensures
            r as int == self@.size,
    {
        self.size
    }
}

// ---------------------------------------------------------------------------
// The header block
// ---------------------------------------------------------------------------

/// Header fields until the blank line; returns the position after the
/// terminating CRLF.
pub open spec fn headers_parse(s: Seq<u8>, pos: int, hi: int) -> Result<
    (int, Seq<AbsHeaderField>),
    AbsError,
>
    decreases hi - pos,
{
    match header_field_parse(s, pos, hi) {
        Err(e) => Err(e),
        Ok(None) => if crlf_at(s, pos, hi) {
            Ok((pos + 2, Seq::empty()))
        } else {
            Err(AbsError::Parse { pos })
        },
        Ok(Some(p)) => if pos < p.0 && p.0 <= hi {
            match headers_parse(s, p.0, hi) {
                Ok(q) => Ok((q.0, seq![p.1] + q.1)),
                Err(e) => Err(e),
            }
        } else {
            Err(AbsError::Parse { pos })
        },
    }
}

pub proof fn lemma_headers_bounds(s: Seq<u8>, pos: int, hi: int)
    requires
        0 <= pos <= hi <= s.len(),
    ensures
        headers_parse(s, pos, hi) matches Ok(p) ==> pos + 2 <= p.0 <= hi,
    decreases hi - pos,
{
    match header_field_parse(s, pos, hi) {
        Ok(Some(p)) => {
            if pos < p.0 && p.0 <= hi {
                lemma_headers_bounds(s, p.0, hi);
            }
        },
        _ => {},
    }
}

pub open spec fn abs_fields(v: Seq<HeaderField>) -> Seq<AbsHeaderField> {
    v.map_values(|f: HeaderField| f@)
}

fn headers_at(s: &[u8], pos: usize, hi: usize) -> (r: Result<(usize, Vec<HeaderField>), EmailError>)
    requires
        pos <= hi <= s@.len(),
    ensures
        (match r {
            Ok((e, ref v)) => Ok::<(int, Seq<AbsHeaderField>), AbsError>((e as int, abs_fields(v@))),
            Err(ref e) => Err(e@),
        }) == headers_parse(s@, pos as int, hi as int),
        r matches Ok(p) ==> pos + 2 <= p.0 <= hi,
    decreases hi - pos,
{
    proof {
        lemma_headers_bounds(s@, pos as int, hi as int);
    }
    match header_field(s, pos, hi) {
        Err(e) => Err(e),
        Ok(None) => {
            if hi - pos >= 2 && s[pos] == 13 && s[pos + 1] == 10 {
                let v: Vec<HeaderField> = Vec::new();
                assert(abs_fields(v@) =~= Seq::<AbsHeaderField>::empty());
                Ok((pos + 2, v))
            } else {
                assert(!crlf_at(s@, pos as int, hi as int));
                Err(EmailError::Parse { pos })
            }
        },
        Ok(Some((e, f))) => {
            match headers_at(s, e, hi) {
                Ok((e2, mut rest)) => {
                    let mut v: Vec<HeaderField> = Vec::new();
                    v.push(f);
                    v.append(&mut rest);
                    assert(abs_fields(v@) =~= (headers_parse(s@, pos as int, hi as int)->Ok_0).1);
                    Ok((e2, v))
                },
                Err(e2) => Err(e2),
            }
        },
    }
}

/// The first index at or after `i` whose field is a Content-Type.
pub open spec fn first_ct_from(fields: Seq<AbsHeaderField>, i: int) -> Option<int>
    decreases fields.len() - i,
{
    if i < 0 || i >= fields.len() {
        None
    } else if fields[i].inner is ContentType {
        Some(i)
    } else {
        first_ct_from(fields, i + 1)
    }
}

/// The first index at or after `i` whose field is a
/// Content-Transfer-Encoding.
pub open spec fn first_cte_from(fields: Seq<AbsHeaderField>, i: int) -> Option<int>
    decreases fields.len() - i,
{
    if i < 0 || i >= fields.len() {
        None
    } else if fields[i].inner is ContentTransferEncoding {
        Some(i)
    } else {
        first_cte_from(fields, i + 1)
    }
}

fn first_ct_exec(fields: &Vec<HeaderField>) -> (r: Option<usize>)
    ensures
        (match r {
            Some(i) => Some(i as int),
            None => None::<int>,
        }) == first_ct_from(abs_fields(fields@), 0),
        r matches Some(i) ==> i < fields@.len() && fields@[i as int]@.inner is ContentType,
{
    let n = fields.len();
    let mut i: usize = 0;
    while i < n
        invariant
            n == fields@.len(),
            i <= n,
            first_ct_from(abs_fields(fields@), 0) == first_ct_from(abs_fields(fields@), i as int),
        decreases n - i,
    {
        let found = match *fields[i].inner() {
            HeaderFieldInner::ContentType(_) => true,
            _ => false,
        };
        if found {
            assert(abs_fields(fields@)[i as int] == fields@[i as int]@);
            return Some(i);
        }
        assert(abs_fields(fields@)[i as int] == fields@[i as int]@);
        i += 1;
    }
    None
}

fn first_cte_exec(fields: &Vec<HeaderField>) -> (r: Option<usize>)
    ensures
        (match r {
            Some(i) => Some(i as int),
            None => None::<int>,
        }) == first_cte_from(abs_fields(fields@), 0),
        r matches Some(i) ==> i < fields@.len() && fields@[i as int]@.inner
            is ContentTransferEncoding,
{
    let n = fields.len();
    let mut i: usize = 0;
    while i < n
        invariant
            n == fields@.len(),
            i <= n,
            first_cte_from(abs_fields(fields@), 0) == first_cte_from(
                abs_fields(fields@),
                i as int,
            ),
        decreases n - i,
    {
        let found = match *fields[i].inner() {
            HeaderFieldInner::ContentTransferEncoding(_) => true,
            _ => false,
        };
        if found {
            assert(abs_fields(fields@)[i as int] == fields@[i as int]@);
            return Some(i);
        }
        assert(abs_fields(fields@)[i as int] == fields@[i as int]@);
        i += 1;
    }
    None
}

// ---------------------------------------------------------------------------
// Body-mode selection
// ---------------------------------------------------------------------------

/// How a body is to be parsed: as charset-decoded text, as transfer-decoded
/// bytes, or as a multipart container with the given boundary.
pub enum MimeParseControl {
    SimpleText { encoding: Option<ContentTransferEncoding>, charset: Option<ByteString> },
    SimpleBinary { encoding: Option<ContentTransferEncoding> },
    Multipart { boundary: ByteString },
}

/// The mathematical image of a `MimeParseControl`.
pub enum AbsMimeCtl {
    Text { enc: Option<ContentTransferEncoding>, label: Option<Seq<u8>> },
    Binary { enc: Option<ContentTransferEncoding> },
    Multipart { boundary: Seq<u8> },
}

impl View for MimeParseControl {
    type V = AbsMimeCtl;

    open spec fn view(&self) -> AbsMimeCtl {
        match *self {
            MimeParseControl::SimpleText { ref encoding, ref charset } => AbsMimeCtl::Text {
                enc: *encoding,
                label: match charset {
                    Some(ref b) => Some(b@),
                    None => None,
                },
            },
            MimeParseControl::SimpleBinary { encoding } => AbsMimeCtl::Binary { enc: encoding },
            MimeParseControl::Multipart { ref boundary } => AbsMimeCtl::Multipart {
                boundary: boundary@,
            },
        }
    }
}

pub open spec fn lit_multipart() -> Seq<u8> {
    seq![109u8, 117u8, 108u8, 116u8, 105u8, 112u8, 97u8, 114u8, 116u8]
}

pub open spec fn lit_text() -> Seq<u8> {
    seq![116u8, 101u8, 120u8, 116u8]
}

pub open spec fn lit_boundary() -> Seq<u8> {
    seq![98u8, 111u8, 117u8, 110u8, 100u8, 97u8, 114u8, 121u8]
}

pub open spec fn lit_charset() -> Seq<u8> {
    seq![99u8, 104u8, 97u8, 114u8, 115u8, 101u8, 116u8]
}

/// The Content-Transfer-Encoding named by the header block, if any.
pub open spec fn cte_of(fields: Seq<AbsHeaderField>) -> Option<ContentTransferEncoding> {
    match first_cte_from(fields, 0) {
        Some(j) => match fields[j].inner {
            AbsHeaderFieldInner::ContentTransferEncoding(c) => Some(c),
            _ => None,
        },
        None => None,
    }
}

/// Chooses the body mode from the header block: multipart when the first
/// Content-Type says so (requiring a boundary and a trivial transfer
/// encoding), text for `text/*` or no Content-Type, binary otherwise.
pub open spec fn mode_of(fields: Seq<AbsHeaderField>) -> Result<AbsMimeCtl, AbsError> {
    let cte = cte_of(fields);
    match first_ct_from(fields, 0) {
        Some(i) => match fields[i].inner {
            AbsHeaderFieldInner::ContentType(ct) => {
                if eq_ignore_case(ct.ctype, lit_multipart()) {
                    if !params_map(ct.params).contains_key(lit_boundary()) {
                        Err(AbsError::ContentTypeWithoutBoundary)
                    } else if (match cte {
                        Some(c) => !c.spec_is_trivial(),
                        None => false,
                    }) {
                        Err(AbsError::MultipartWithNontrivialCte)
                    } else {
                        Ok(
                            AbsMimeCtl::Multipart {
                                boundary: params_map(ct.params)[lit_boundary()],
                            },
                        )
                    }
                } else if eq_ignore_case(ct.ctype, lit_text()) {
                    Ok(
                        AbsMimeCtl::Text {
                            enc: cte,
                            label: if params_map(ct.params).contains_key(lit_charset()) {
                                Some(params_map(ct.params)[lit_charset()])
                            } else {
                                None
                            },
                        },
                    )
                } else {
                    Ok(AbsMimeCtl::Binary { enc: cte })
                }
            },
            _ => Err(AbsError::Parse { pos: 0 }),
        },
        None => Ok(AbsMimeCtl::Text { enc: cte, label: None }),
    }
}

#[verifier::rlimit(100)]
fn mode_of_exec(fields: &Vec<HeaderField>) -> (r: Result<MimeParseControl, EmailError>)
    ensures
        (match r {
            Ok(ref c) => Ok::<AbsMimeCtl, AbsError>(c@),
            Err(ref e) => Err(e@),
        }) == mode_of(abs_fields(fields@)),
{
    let ghost af = abs_fields(fields@);
    let cte: Option<ContentTransferEncoding> = match first_cte_exec(fields) {
        Some(j) => {
            assert(af[j as int] == fields@[j as int]@);
            match *fields[j].inner() {
                HeaderFieldInner::ContentTransferEncoding(c) => Some(c),
                _ => None,
            }
        },
        None => None,
    };
    assert(cte == cte_of(af));
    match first_ct_exec(fields) {
        Some(i) => {
            assert(af[i as int] == fields@[i as int]@);
            match *fields[i].inner() {
                HeaderFieldInner::ContentType(ref ct) => {
                    let pat_multipart: [u8; 9] = [109, 117, 108, 116, 105, 112, 97, 114, 116];
                    let pat_text: [u8; 4] = [116, 101, 120, 116];
                    let pat_boundary: [u8; 8] = [98, 111, 117, 110, 100, 97, 114, 121];
                    let pat_charset: [u8; 7] = [99, 104, 97, 114, 115, 101, 116];
                    assert(pat_multipart@ =~= lit_multipart());
                    assert(pat_text@ =~= lit_text());
                    assert(pat_boundary@ =~= lit_boundary());
                    assert(pat_charset@ =~= lit_charset());
                    if eq_ignore_ascii_case(ct.ctype.0.as_slice(), pat_multipart.as_slice()) {
                        match ct.get_parameter(pat_boundary.as_slice()) {
                            None => Err(EmailError::ContentTypeWithoutBoundary),
                            Some(b) => {
                                let nontrivial = match cte {
                                    Some(c) => !c.is_trivial(),
                                    None => false,
                                };
                                if nontrivial {
                                    Err(EmailError::MultipartWithNontrivialCte)
                                } else {
                                    Ok(MimeParseControl::Multipart { boundary: b })
                                }
                            },
                        }
                    } else if eq_ignore_ascii_case(ct.ctype.0.as_slice(), pat_text.as_slice()) {
                        let label = ct.get_parameter(pat_charset.as_slice());
                        Ok(MimeParseControl::SimpleText { encoding: cte, charset: label })
                    } else {
                        Ok(MimeParseControl::SimpleBinary { encoding: cte })
                    }
                },
                _ => Err(EmailError::Parse { pos: 0 }),
            }
        },
        None => Ok(MimeParseControl::SimpleText { encoding: cte, charset: None }),
    }
}

// ---------------------------------------------------------------------------
// Leaf bodies: lines and transfer decoding
// ---------------------------------------------------------------------------

/// The body read line by line: each line at most 998 non-CR/LF bytes ended
/// by CRLF, a final unterminated line allowed only at the very end. `join`
/// drops the CRLFs (for base64). `None` means a line was too long or a bare
/// CR or LF appeared.
pub open spec fn spec_lines(s: Seq<u8>, pos: int, hi: int, join: bool) -> Option<Seq<u8>>
    decreases hi - pos,
{
    if 0 <= pos && pos <= hi && hi <= s.len() {
        if pos == hi {
            Some(Seq::empty())
        } else {
            let e = run_end(s, pos, hi, PredKind::NonCrlf);
            let le: int = if e > pos + 998 {
                pos + 998
            } else {
                e
            };
            if crlf_at(s, le, hi) {
                let line: Seq<u8> = if join {
                    s.subrange(pos, le)
                } else {
                    s.subrange(pos, le + 2)
                };
                if pos < le + 2 && le + 2 <= hi {
                    match spec_lines(s, le + 2, hi, join) {
                        Some(rest) => Some(line + rest),
                        None => None,
                    }
                } else {
                    None
                }
            } else if le == hi {
                Some(s.subrange(pos, le))
            } else {
                None
            }
        }
    } else {
        None
    }
}

fn lines_at(s: &[u8], pos: usize, hi: usize, join: bool) -> (r: Option<Vec<u8>>)
    requires
        pos <= hi <= s@.len(),
    ensures
        (match r {
            Some(ref v) => Some(v@),
            None => None::<Seq<u8>>,
        }) == spec_lines(s@, pos as int, hi as int, join),
    decreases hi - pos,
{
    if pos == hi {
        Some(Vec::new())
    } else {
        let e = run_pred(s, pos, hi, PredKind::NonCrlf);
        let le: usize = if e - pos > 998 {
            pos + 998
        } else {
            e
        };
        proof {
            lemma_run_end(s@, pos as int, hi as int, PredKind::NonCrlf);
        }
        if hi - le >= 2 && s[le] == 13 && s[le + 1] == 10 {
            match lines_at(s, le + 2, hi, join) {
                Some(mut rest) => {
                    let mut v = if join {
                        copy_range(s, pos, le)
                    } else {
                        copy_range(s, pos, le + 2)
                    };
                    v.append(&mut rest);
                    assert(v@ =~= spec_lines(s@, pos as int, hi as int, join)->0);
                    Some(v)
                },
                None => None,
            }
        } else if le == hi {
            assert(!crlf_at(s@, le as int, hi as int));
            let v = copy_range(s, pos, le);
            Some(v)
        } else {
            assert(!crlf_at(s@, le as int, hi as int));
            None
        }
    }
}

/// The transfer-decoded body bytes of the region, or the error that stops
/// them: `LineTooLong` for an over-long or badly terminated line, a decoder
/// error for base64 or quoted-printable.
pub open spec fn body_decoded(
    s: Seq<u8>,
    pos: int,
    hi: int,
    enc: Option<ContentTransferEncoding>,
) -> Result<Seq<u8>, AbsError> {
    let join = (enc == Some(ContentTransferEncoding::Base64));
    match spec_lines(s, pos, hi, join) {
        None => Err(AbsError::LineTooLong),
        Some(c) => match enc {
            None => Ok(c),
            Some(e) => match cte_decoded(e, c) {
                Some(d) => Ok(d),
                None => if e == ContentTransferEncoding::Base64 {
                    Err(AbsError::BodyDecodeBase64)
                } else {
                    Err(AbsError::BodyDecodeQuotedPrintable)
                },
            },
        },
    }
}

/// Reads the body region line by line and applies the transfer decoder.
pub fn cte_decode(s: &[u8], pos: usize, hi: usize, encoding: Option<ContentTransferEncoding>)
    -> (r: Result<Vec<u8>, EmailError>)
    requires
        pos <= hi <= s@.len(),
    ensures
        (match r {
            Ok(ref v) => Ok::<Seq<u8>, AbsError>(v@),
            Err(ref e) => Err(e@),
        }) == body_decoded(s@, pos as int, hi as int, encoding),
{
    let join = match encoding {
        Some(ContentTransferEncoding::Base64) => true,
        _ => false,
    };
    match lines_at(s, pos, hi, join) {
        None => Err(EmailError::LineTooLong),
        Some(c) => match encoding {
            None => Ok(c),
            Some(e) => match e.decode(c) {
                Ok(d) => Ok(d),
                Err(de) => Err(EmailError::BodyDecode(de)),
            },
        },
    }
}

/// The text a leaf body decodes to: the transfer-decoded bytes interpreted
/// in the labelled charset, or lossy UTF-8 when there is no (known) label.
pub open spec fn text_of(d: Seq<u8>, label: Option<Seq<u8>>) -> Seq<char> {
    match label {
        None => utf8_lossy_chars(d),
        Some(l) => if charset_known(l) {
            charset_decoded(l, d)
        } else {
            utf8_lossy_chars(d)
        },
    }
}

fn text_body(s: &[u8], pos: usize, hi: usize, encoding: Option<ContentTransferEncoding>,
    charset: &Option<ByteString>) -> (r: Result<String, EmailError>)
    requires
        pos <= hi <= s@.len(),
    ensures
        (match r {
            Ok(ref t) => Ok::<Seq<char>, AbsError>(t@),
            Err(ref e) => Err(e@),
        }) == (match body_decoded(s@, pos as int, hi as int, encoding) {
            Ok(d) => Ok::<Seq<char>, AbsError>(text_of(d, match charset {
                Some(ref b) => Some(b@),
                None => None,
            })),
            Err(e) => Err(e),
        }),
{
    match cte_decode(s, pos, hi, encoding) {
        Err(e) => Err(e),
        Ok(d) => match charset {
            None => Ok(utf8_lossy(&d)),
            Some(l) => match charset_decode(&l.0, &d) {
                Some(t) => Ok(t),
                None => Ok(utf8_lossy(&d)),
            },
        },
    }
}

// ---------------------------------------------------------------------------
// Boundary scanning
// ---------------------------------------------------------------------------

/// A dash-boundary at `p`: `--` then the boundary, then either CRLF (more
/// parts follow) or `--` CRLF (the container closes). Yields the position
/// after the line and whether it closed.
pub open spec fn bound_match(s: Seq<u8>, p: int, hi: int, b: Seq<u8>) -> Option<(int, bool)> {
    let q = p + 2 + b.len();
    if 0 <= p && q <= hi && hi <= s.len() && s[p] == 45 && s[p + 1] == 45 && s.subrange(p + 2, q)
        == b {
        if crlf_at(s, q, hi) {
            Some((q + 2, false))
        } else if q + 4 <= hi && s[q] == 45 && s[q + 1] == 45 && crlf_at(s, q + 2, hi) {
            Some((q + 4, true))
        } else {
            None
        }
    } else {
        None
    }
}

fn bound_match_at(s: &[u8], p: usize, hi: usize, b: &[u8]) -> (r: Option<(usize, bool)>)
    requires
        p <= hi <= s@.len(),
    ensures
        (match r {
            Some((e, c)) => Some((e as int, c)),
            None => None,
        }) == bound_match(s@, p as int, hi as int, b@),
        r matches Some(z) ==> p + 2 + b@.len() < z.0 <= hi,
{
    if hi - p < 2 || s[p] != 45 || s[p + 1] != 45 {
        assert(bound_match(s@, p as int, hi as int, b@) is None);
        return None;
    }
    if !crate::util::match_at(s, p + 2, hi, b) {
        assert(bound_match(s@, p as int, hi as int, b@) is None);
        return None;
    }
    let q = p + 2 + b.len();
    if hi - q >= 2 && s[q] == 13 && s[q + 1] == 10 {
        Some((q + 2, false))
    } else if hi - q >= 4 && s[q] == 45 && s[q + 1] == 45 && s[q + 2] == 13 && s[q + 3] == 10 {
        Some((q + 4, true))
    } else {
        assert(bound_match(s@, p as int, hi as int, b@) is None);
        None
    }
}

/// The earliest position at or after `pos` of a delimiter: CRLF followed by
/// a dash-boundary line.
pub open spec fn find_delim(s: Seq<u8>, pos: int, hi: int, b: Seq<u8>) -> Option<(int, int, bool)>
    decreases hi - pos,
{
    if 0 <= pos && pos < hi && hi <= s.len() {
        if crlf_at(s, pos, hi) && bound_match(s, pos + 2, hi, b) is Some {
            let m = bound_match(s, pos + 2, hi, b)->0;
            Some((pos, m.0, m.1))
        } else {
            find_delim(s, pos + 1, hi, b)
        }
    } else {
        None
    }
}

pub proof fn lemma_find_delim(s: Seq<u8>, pos: int, hi: int, b: Seq<u8>)
    requires
        0 <= pos <= hi <= s.len(),
    ensures
        find_delim(s, pos, hi, b) matches Some(z) ==> pos <= z.0 && z.0 + 2 < z.1 <= hi && z.0
            < hi,
    decreases hi - pos,
{
    if pos < hi {
        if !(crlf_at(s, pos, hi) && bound_match(s, pos + 2, hi, b) is Some) {
            lemma_find_delim(s, pos + 1, hi, b);
        }
    }
}

fn find_delim_at(s: &[u8], pos: usize, hi: usize, b: &[u8]) -> (r: Option<(usize, usize, bool)>)
    requires
        pos <= hi <= s@.len(),
    ensures
        (match r {
            Some((p, e, c)) => Some((p as int, e as int, c)),
            None => None,
        }) == find_delim(s@, pos as int, hi as int, b@),
        r matches Some(z) ==> pos <= z.0 < hi && z.0 < z.1 <= hi,
    decreases hi - pos,
{
    proof {
        lemma_find_delim(s@, pos as int, hi as int, b@);
    }
    if pos >= hi {
        return None;
    }
    if hi - pos >= 2 && s[pos] == 13 && s[pos + 1] == 10 {
        match bound_match_at(s, pos + 2, hi, b) {
            Some((e, c)) => {
                return Some((pos, e, c));
            },
            None => {},
        }
    } else {
        assert(!crlf_at(s@, pos as int, hi as int));
    }
    find_delim_at(s, pos + 1, hi, b)
}

// ---------------------------------------------------------------------------
// The message parser
// ---------------------------------------------------------------------------

/// The parts of a multipart body from `cur` (the start of a part region):
/// each part region runs to the next delimiter; a close-delimiter ends the
/// container. Yields the part regions, the parts, and the position after
/// the close-delimiter.
pub open spec fn mp_parts(s: Seq<u8>, cur: int, hi: int, b: Seq<u8>) -> Result<
    (Seq<(int, int)>, Seq<AbsMessage>, int),
    AbsError,
>
    decreases hi - cur, 0int,
{
    match find_delim(s, cur, hi, b) {
        None => Err(AbsError::Parse { pos: cur }),
        Some((ds, dafter, closed)) => {
            if 0 <= cur && cur <= ds && ds < hi && cur < dafter && dafter <= hi {
                match spec_message(s, cur, ds) {
                    Err(e) => Err(e),
                    Ok(pm) => if closed {
                        Ok((seq![(cur, ds)], seq![pm], dafter))
                    } else {
                        match mp_parts(s, dafter, hi, b) {
                            Ok(q) => Ok((seq![(cur, ds)] + q.0, seq![pm] + q.1, q.2)),
                            Err(e) => Err(e),
                        }
                    },
                }
            } else {
                Err(AbsError::Parse { pos: cur })
            }
        },
    }
}

/// The body of a message under the chosen mode.
pub open spec fn body_parse(s: Seq<u8>, lo: int, hi: int, ctl: AbsMimeCtl) -> Result<
    AbsBody,
    AbsError,
>
    decreases hi - lo, 1int,
{
    if 0 <= lo && lo <= hi && hi <= s.len() {
        match ctl {
            AbsMimeCtl::Text { enc, label } => match body_decoded(s, lo, hi, enc) {
                Ok(d) => Ok(AbsBody::Text(text_of(d, label))),
                Err(e) => Err(e),
            },
            AbsMimeCtl::Binary { enc } => match body_decoded(s, lo, hi, enc) {
                Ok(d) => Ok(AbsBody::Binary(d)),
                Err(e) => Err(e),
            },
            AbsMimeCtl::Multipart { boundary } => match bound_match(s, lo, hi, boundary) {
                Some(m) => {
                    // the first boundary stands at the very start of the body
                    if m.0 <= hi {
                        if m.1 {
                            Ok(
                                AbsBody::Multipart {
                                    preamble: Seq::empty(),
                                    parts: Seq::empty(),
                                    epilogue: s.subrange(m.0, hi),
                                    spans: Seq::empty(),
                                    first_at_start: true,
                                },
                            )
                        } else if lo < m.0 {
                            match mp_parts(s, m.0, hi, boundary) {
                                Ok(q) => if q.2 <= hi {
                                    Ok(
                                        AbsBody::Multipart {
                                            preamble: Seq::empty(),
                                            parts: q.1,
                                            epilogue: s.subrange(q.2, hi),
                                            spans: q.0,
                                            first_at_start: true,
                                        },
                                    )
                                } else {
                                    Err(AbsError::Parse { pos: lo })
                                },
                                Err(e) => Err(e),
                            }
                        } else {
                            Err(AbsError::Parse { pos: lo })
                        }
                    } else {
                        Err(AbsError::Parse { pos: lo })
                    }
                },
                None => match find_delim(s, lo, hi, boundary) {
                    None => Err(AbsError::Parse { pos: lo }),
                    Some((ds, dafter, closed)) => {
                        if lo <= ds && ds <= hi && dafter <= hi {
                            if closed {
                                Ok(
                                    AbsBody::Multipart {
                                        preamble: s.subrange(lo, ds),
                                        parts: Seq::empty(),
                                        epilogue: s.subrange(dafter, hi),
                                        spans: Seq::empty(),
                                        first_at_start: false,
                                    },
                                )
                            } else if lo < dafter {
                                match mp_parts(s, dafter, hi, boundary) {
                                    Ok(q) => if q.2 <= hi {
                                        Ok(
                                            AbsBody::Multipart {
                                                preamble: s.subrange(lo, ds),
                                                parts: q.1,
                                                epilogue: s.subrange(q.2, hi),
                                                spans: q.0,
                                                first_at_start: false,
                                            },
                                        )
                                    } else {
                                        Err(AbsError::Parse { pos: lo })
                                    },
                                    Err(e) => Err(e),
                                }
                            } else {
                                Err(AbsError::Parse { pos: lo })
                            }
                        } else {
                            Err(AbsError::Parse { pos: lo })
                        }
                    },
                },
            },
        }
    } else {
        Err(AbsError::Parse { pos: lo })
    }
}

/// A whole message in `[lo, hi)`: the header block, the body mode chosen
/// from it, and the body, which consumes the rest of the region.
pub open spec fn spec_message(s: Seq<u8>, lo: int, hi: int) -> Result<AbsMessage, AbsError>
    decreases hi - lo, 2int,
{
    if 0 <= lo && lo <= hi && hi <= s.len() {
        match headers_parse(s, lo, hi) {
            Err(e) => Err(e),
            Ok((blo, fields)) => match mode_of(fields) {
                Err(e) => Err(e),
                Ok(ctl) => if lo < blo && blo <= hi {
                    match body_parse(s, blo, hi, ctl) {
                        Ok(bd) => Ok(
                            AbsMessage {
                                header: fields,
                                content_type: first_ct_from(fields, 0),
                                body: bd,
                                size: hi - lo,
                            },
                        ),
                        Err(e) => Err(e),
                    }
                } else {
                    Err(AbsError::Parse { pos: lo })
                },
            },
        }
    } else {
        Err(AbsError::Parse { pos: lo })
    }
}

fn parts_at(s: &[u8], cur: usize, hi: usize, b: &[u8]) -> (r: Result<
    (Vec<Message>, Ghost<Seq<(int, int)>>, usize),
    EmailError,
>)
    requires
        cur <= hi <= s@.len(),
    ensures
        (match r {
            Ok((ref parts, spans, ac)) => Ok::<(Seq<(int, int)>, Seq<AbsMessage>, int), AbsError>(
                (spans@, abs_parts(parts@), ac as int),
            ),
            Err(ref e) => Err(e@),
        }) == mp_parts(s@, cur as int, hi as int, b@),
    decreases hi - cur, 0int,
{
    proof {
        lemma_find_delim(s@, cur as int, hi as int, b@);
    }
    match find_delim_at(s, cur, hi, b) {
        None => Err(EmailError::Parse { pos: cur }),
        Some((ds, dafter, closed)) => {
            match message(s, cur, ds) {
                Err(e) => Err(e),
                Ok(pm) => {
                    if closed {
                        let mut parts: Vec<Message> = Vec::new();
                        parts.push(pm);
                        proof {
                            assert(abs_parts(parts@) =~= seq![abs_message(parts@[0])]
                                + abs_parts(parts@.drop_first()));
                            assert(parts@.drop_first() =~= Seq::<Message>::empty());
                        }
                        let ghost sp: Seq<(int, int)> = seq![(cur as int, ds as int)];
                        Ok((parts, Ghost(sp), dafter))
                    } else {
                        match parts_at(s, dafter, hi, b) {
                            Ok((mut rest, rest_spans, ac)) => {
                                let ghost rest_view = rest@;
                                let mut parts: Vec<Message> = Vec::new();
                                parts.push(pm);
                                parts.append(&mut rest);
                                proof {
                                    assert(parts@.drop_first() =~= rest_view);
                                    assert(abs_parts(parts@) =~= seq![abs_message(pm)]
                                        + abs_parts(rest_view));
                                }
                                let ghost sp: Seq<(int, int)> = seq![(cur as int, ds as int)]
                                    + rest_spans@;
                                Ok((parts, Ghost(sp), ac))
                            },
                            Err(e) => Err(e),
                        }
                    }
                },
            }
        },
    }
}

/// Parses a body region under the chosen mode.
pub fn body(s: &[u8], lo: usize, hi: usize, ctl: &MimeParseControl) -> (r: Result<
    Body,
    EmailError,
>)
    requires
        lo <= hi <= s@.len(),
    ensures
        (match r {
            Ok(ref bd) => Ok::<AbsBody, AbsError>(bd@),
            Err(ref e) => Err(e@),
        }) == body_parse(s@, lo as int, hi as int, ctl@),
    decreases hi - lo, 1int,
{
    match *ctl {
        MimeParseControl::SimpleText { ref encoding, ref charset } => {
            match text_body(s, lo, hi, *encoding, charset) {
                Ok(t) => Ok(Body::SimpleText(t)),
                Err(e) => Err(e),
            }
        },
        MimeParseControl::SimpleBinary { encoding } => {
            match cte_decode(s, lo, hi, encoding) {
                Ok(d) => Ok(Body::SimpleBinary(d)),
                Err(e) => Err(e),
            }
        },
        MimeParseControl::Multipart { ref boundary } => {
            match bound_match_at(s, lo, hi, boundary.0.as_slice()) {
                Some((after, closed)) => {
                    if closed {
                        let epilogue = copy_range(s, after, hi);
                        let parts: Vec<Message> = Vec::new();
                        assert(abs_parts(parts@) =~= Seq::<AbsMessage>::empty());
                        assert(Seq::<u8>::empty() =~= s@.subrange(lo as int, lo as int));
                        let ghost sp: Seq<(int, int)> = Seq::empty();
                        Ok(
                            Body::Multipart {
                                preamble: Vec::new(),
                                parts,
                                epilogue,
                                part_spans: Ghost(sp),
                                first_at_start: Ghost(true),
                            },
                        )
                    } else {
                        match parts_at(s, after, hi, boundary.0.as_slice()) {
                            Ok((parts, spans, ac)) => {
                                if ac <= hi {
                                    let epilogue = copy_range(s, ac, hi);
                                    Ok(
                                        Body::Multipart {
                                            preamble: Vec::new(),
                                            parts,
                                            epilogue,
                                            part_spans: spans,
                                            first_at_start: Ghost(true),
                                        },
                                    )
                                } else {
                                    Err(EmailError::Parse { pos: lo })
                                }
                            },
                            Err(e) => Err(e),
                        }
                    }
                },
                None => {
                    proof {
                        lemma_find_delim(s@, lo as int, hi as int, boundary@);
                    }
                    match find_delim_at(s, lo, hi, boundary.0.as_slice()) {
                        None => Err(EmailError::Parse { pos: lo }),
                        Some((ds, dafter, closed)) => {
                            if closed {
                                let preamble = copy_range(s, lo, ds);
                                let epilogue = copy_range(s, dafter, hi);
                                let parts: Vec<Message> = Vec::new();
                                assert(abs_parts(parts@) =~= Seq::<AbsMessage>::empty());
                                let ghost sp: Seq<(int, int)> = Seq::empty();
                                Ok(
                                    Body::Multipart {
                                        preamble,
                                        parts,
                                        epilogue,
                                        part_spans: Ghost(sp),
                                        first_at_start: Ghost(false),
                                    },
                                )
                            } else {
                                match parts_at(s, dafter, hi, boundary.0.as_slice()) {
                                    Ok((parts, spans, ac)) => {
                                        if ac <= hi {
                                            let preamble = copy_range(s, lo, ds);
                                            let epilogue = copy_range(s, ac, hi);
                                            Ok(
                                                Body::Multipart {
                                                    preamble,
                                                    parts,
                                                    epilogue,
                                                    part_spans: spans,
                                                    first_at_start: Ghost(false),
                                                },
                                            )
                                        } else {
                                            Err(EmailError::Parse { pos: lo })
                                        }
                                    },
                                    Err(e) => Err(e),
                                }
                            }
                        },
                    }
                },
            }
        },
    }
}

/// Parses one message from the region `[lo, hi)`; the body consumes the
/// whole region, so `size` is its length.
pub fn message(s: &[u8], lo: usize, hi: usize) -> (r: Result<Message, EmailError>)
    requires
        lo <= hi <= s@.len(),
    ensures
        (match r {
            Ok(ref m) => Ok::<AbsMessage, AbsError>(m@),
            Err(ref e) => Err(e@),
        }) == spec_message(s@, lo as int, hi as int),
    decreases hi - lo, 2int,
{
    match headers_at(s, lo, hi) {
        Err(e) => Err(e),
        Ok((blo, fields)) => {
            match mode_of_exec(&fields) {
                Err(e) => Err(e),
                Ok(ctl) => {
                    let ct_idx = first_ct_exec(&fields);
                    match body(s, blo, hi, &ctl) {
                        Ok(bd) => Ok(Message::new(fields, ct_idx, bd, hi - lo)),
                        Err(e) => Err(e),
                    }
                },
            }
        },
    }
}

/// The library's entry point: parses one complete message from the input
/// buffer.
pub fn parse_message(input: &[u8]) -> (r: Result<Message, EmailError>)
    ensures
        (match r {
            Ok(ref m) => Ok::<AbsMessage, AbsError>(m@),
            Err(ref e) => Err(e@),
        }) == spec_message(input@, 0, input@.len() as int),
        r matches Ok(m) ==> m@.size == input@.len(),
{
    let r = message(input, 0, input.len());
    r
}

} // verus!
