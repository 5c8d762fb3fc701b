//! Laws of the parser: statements that hold of every input, proved once
//! here rather than tested case by case.

use vstd::prelude::*;
use crate::lex::{
    comment_end, comment_tail, ccontent_end, quoted_pair_end, fws_end, cfws_end, opt_cfws,
    qs_tail, quoted_string_end, spec_is_qtext, spec_is_quotable, spec_is_wsp, crlf_at,
};
use crate::header::{unfold_value, AbsHeaderField, header_field_parse, AbsHeaderFieldInner};
use crate::mime::{ContentTransferEncoding, params_map};
use crate::message::{
    spec_lines, body_decoded, spec_message, headers_parse, mp_parts, body_parse, mode_of, cte_of,
    first_ct_from, AbsMessage, AbsBody, AbsMimeCtl, find_delim, bound_match, lit_boundary,
    lemma_headers_bounds, lemma_find_delim,
};

verus! {

// ---------------------------------------------------------------------------
// Comment nesting
// ---------------------------------------------------------------------------

/// Comments nest to any depth: `d` opening parentheses followed by `d`
/// closing ones parse as one comment, for every `d` of at least 1.
pub proof fn lemma_comment_nesting(s: Seq<u8>, pos: int, end: int, d: int)
    requires
        d >= 1,
        0 <= pos,
        pos + 2 * d <= end <= s.len(),
        forall|i: int| 0 <= i < d ==> #[trigger] s[pos + i] == 40,
        forall|i: int| 0 <= i < d ==> #[trigger] s[pos + d + i] == 41,
    ensures
        comment_end(s, pos, end) == Some(pos + 2 * d),
    decreases d, 0int,
{
    assert(s[pos + 0] == 40);
    assert forall|i: int| 0 <= i < d - 1 implies #[trigger] s[(pos + 1) + i] == 40 by {
        assert(s[pos + (i + 1)] == 40);
    }
    assert forall|i: int| 0 <= i < d implies #[trigger] s[(pos + 1) + (d - 1) + i] == 41 by {
        assert(s[pos + d + i] == 41);
    }
    lemma_comment_nest_tail(s, pos + 1, end, d - 1);
}

/// The inside of a nested comment: `k` opens then `k + 1` closes.
proof fn lemma_comment_nest_tail(s: Seq<u8>, p: int, end: int, k: int)
    requires
        k >= 0,
        0 <= p,
        p + 2 * k + 1 <= end <= s.len(),
        forall|i: int| 0 <= i < k ==> #[trigger] s[p + i] == 40,
        forall|i: int| 0 <= i < k + 1 ==> #[trigger] s[p + k + i] == 41,
    ensures
        comment_tail(s, p, end) == Some(p + 2 * k + 1),
    decreases k, 1int,
{
    if k == 0 {
        assert(s[p + 0 + 0] == 41);
        assert(s[p] == 41);
        assert(fws_end(s, p, end) is None);
        assert(quoted_pair_end(s, p, end) is None);
        assert(comment_end(s, p, end) is None);
        assert(ccontent_end(s, p, end) is None);
    } else {
        assert(s[p + 0] == 40);
        assert(fws_end(s, p, end) is None);
        // the first ccontent is the inner comment of depth k
        assert forall|i: int| 0 <= i < k implies #[trigger] s[p + k + i] == 41 by {
            assert(s[p + k + i] == 41);
        }
        lemma_comment_nesting(s, p, end, k);
        assert(quoted_pair_end(s, p, end) is None);
        assert(ccontent_end(s, p, end) == Some(p + 2 * k));
        // after it, a lone closing parenthesis ends this comment
        assert(s[p + k + k] == 41);
        assert forall|i: int| 0 <= i < 1 implies #[trigger] s[(p + 2 * k) + 0 + i] == 41 by {
            assert(s[p + k + (k + i)] == 41);
        }
        lemma_comment_nest_tail(s, p + 2 * k, end, 0);
    }
}

// ---------------------------------------------------------------------------
// Trivial transfer encodings are the identity
// ---------------------------------------------------------------------------

/// Reading a well-formed body with CRLFs retained reproduces the region
/// bytes exactly.
pub proof fn lemma_lines_identity(s: Seq<u8>, pos: int, hi: int)
    requires
        0 <= pos <= hi <= s.len(),
    ensures
        spec_lines(s, pos, hi, false) matches Some(c) ==> c == s.subrange(pos, hi),
    decreases hi - pos,
{
    if pos == hi {
        assert(s.subrange(pos, hi) =~= Seq::<u8>::empty());
    } else {
        crate::lex::lemma_run_end(s, pos, hi, crate::lex::PredKind::NonCrlf);
        let e = crate::lex::run_end(s, pos, hi, crate::lex::PredKind::NonCrlf);
        let le: int = if e > pos + 998 {
            pos + 998
        } else {
            e
        };
        if crlf_at(s, le, hi) {
            lemma_lines_identity(s, le + 2, hi);
            match spec_lines(s, le + 2, hi, false) {
                Some(rest) => {
                    assert(s.subrange(pos, le + 2) + s.subrange(le + 2, hi) =~= s.subrange(
                        pos,
                        hi,
                    ));
                },
                None => {},
            }
        }
    }
}

/// A `7bit`, `8bit` or `binary` transfer encoding (or none at all) is the
/// identity on bodies: whenever the body reads successfully, the decoded
/// bytes are exactly the body region.
pub proof fn lemma_trivial_cte_identity(
    s: Seq<u8>,
    pos: int,
    hi: int,
    enc: Option<ContentTransferEncoding>,
)
    requires
        0 <= pos <= hi <= s.len(),
        match enc {
            Some(c) => c.spec_is_trivial(),
            None => true,
        },
    ensures
        body_decoded(s, pos, hi, enc) matches Ok(d) ==> d == s.subrange(pos, hi),
{
    lemma_lines_identity(s, pos, hi);
}

// ---------------------------------------------------------------------------
// Raw header values are slices of the input
// ---------------------------------------------------------------------------

/// The field's raw body is a contiguous subslice of the input at its
/// recorded position.
pub open spec fn field_sliced(s: Seq<u8>, f: AbsHeaderField) -> bool {
    0 <= f.raw_lo && f.raw_lo + f.raw.len() <= s.len() && f.raw == s.subrange(
        f.raw_lo,
        f.raw_lo + f.raw.len(),
    )
}

pub open spec fn parts_sliced(s: Seq<u8>, ps: Seq<AbsMessage>) -> bool
    decreases ps,
{
    if ps.len() == 0 {
        true
    } else {
        msg_sliced(s, ps[0]) && parts_sliced(s, ps.drop_first())
    }
}

/// Every header field of the message, including those of nested parts,
/// has its raw value as a contiguous subslice of the input.
pub open spec fn msg_sliced(s: Seq<u8>, m: AbsMessage) -> bool
    decreases m,
{
    (forall|i: int| 0 <= i < m.header.len() ==> field_sliced(s, #[trigger] m.header[i]))
        && (match m.body {
        AbsBody::Multipart { parts, .. } => parts_sliced(s, parts),
        _ => true,
    })
}

proof fn lemma_field_sliced(s: Seq<u8>, pos: int, hi: int)
    requires
        0 <= pos <= hi <= s.len(),
    ensures
        header_field_parse(s, pos, hi) matches Ok(Some(p)) ==> field_sliced(s, p.1),
{
    crate::lex::lemma_run_end(s, pos, hi, crate::lex::PredKind::Ftext);
    let ne = crate::lex::run_end(s, pos, hi, crate::lex::PredKind::Ftext);
    if pos < ne && ne < hi && s[ne] == 58 {
        crate::lex::lemma_unstructured_bounds(s, ne + 1, hi);
    }
}

proof fn lemma_headers_sliced(s: Seq<u8>, pos: int, hi: int)
    requires
        0 <= pos <= hi <= s.len(),
    ensures
        headers_parse(s, pos, hi) matches Ok(p) ==> forall|i: int|
            0 <= i < p.1.len() ==> field_sliced(s, #[trigger] p.1[i]),
    decreases hi - pos,
{
    lemma_field_sliced(s, pos, hi);
    match header_field_parse(s, pos, hi) {
        Ok(Some(p)) => {
            if pos < p.0 && p.0 <= hi {
                lemma_headers_sliced(s, p.0, hi);
                match headers_parse(s, p.0, hi) {
                    Ok(q) => {
                        assert forall|i: int|
                            0 <= i < (seq![p.1] + q.1).len() implies field_sliced(
                            s,
                            #[trigger] (seq![p.1] + q.1)[i],
                        ) by {
                            if i > 0 {
                                assert((seq![p.1] + q.1)[i] == q.1[i - 1]);
                            }
                        }
                    },
                    Err(_) => {},
                }
            }
        },
        _ => {},
    }
}

proof fn lemma_mp_parts_sliced(s: Seq<u8>, cur: int, hi: int, b: Seq<u8>)
    requires
        0 <= cur <= hi <= s.len(),
    ensures
        mp_parts(s, cur, hi, b) matches Ok(q) ==> parts_sliced(s, q.1),
    decreases hi - cur, 0int,
{
    lemma_find_delim(s, cur, hi, b);
    match find_delim(s, cur, hi, b) {
        None => {},
        Some((ds, dafter, closed)) => {
            if cur <= ds && ds < hi && cur < dafter && dafter <= hi {
                lemma_message_sliced(s, cur, ds);
                match spec_message(s, cur, ds) {
                    Err(_) => {},
                    Ok(pm) => {
                        if closed {
                            assert(seq![pm].drop_first() =~= Seq::<AbsMessage>::empty());
                            assert(seq![pm][0] == pm);
                            assert(msg_sliced(s, pm));
                            assert(parts_sliced(s, Seq::<AbsMessage>::empty()));
                            assert(parts_sliced(s, seq![pm]));
                        } else {
                            lemma_mp_parts_sliced(s, dafter, hi, b);
                            match mp_parts(s, dafter, hi, b) {
                                Ok(q) => {
                                    assert((seq![pm] + q.1).drop_first() =~= q.1);
                                    assert((seq![pm] + q.1)[0] == pm);
                                    assert(parts_sliced(s, seq![pm] + q.1));
                                },
                                Err(_) => {},
                            }
                        }
                    },
                }
            }
        },
    }
}

proof fn lemma_body_sliced(s: Seq<u8>, blo: int, hi: int, ctl: AbsMimeCtl)
    requires
        0 <= blo <= hi <= s.len(),
    ensures
        body_parse(s, blo, hi, ctl) matches Ok(bd) ==> (match bd {
            AbsBody::Multipart { parts, .. } => parts_sliced(s, parts),
            _ => true,
        }),
    decreases hi - blo, 1int,
{
    match ctl {
        AbsMimeCtl::Multipart { boundary } => {
            match bound_match(s, blo, hi, boundary) {
                Some(m) => {
                    if !m.1 && blo < m.0 && m.0 <= hi {
                        lemma_mp_parts_sliced(s, m.0, hi, boundary);
                    }
                },
                None => {
                    lemma_find_delim(s, blo, hi, boundary);
                    match find_delim(s, blo, hi, boundary) {
                        None => {},
                        Some((ds, dafter, closed)) => {
                            if !closed && blo < dafter && dafter <= hi {
                                lemma_mp_parts_sliced(s, dafter, hi, boundary);
                            }
                        },
                    }
                },
            }
        },
        _ => {},
    }
}

/// Every parsed message keeps each header field's raw value as a
/// contiguous subslice of the input buffer, at the recorded offset,
/// throughout the MIME tree.
pub proof fn lemma_message_sliced(s: Seq<u8>, lo: int, hi: int)
    requires
        0 <= lo <= hi <= s.len(),
    ensures
        spec_message(s, lo, hi) matches Ok(m) ==> msg_sliced(s, m),
    decreases hi - lo, 2int,
{
    lemma_headers_sliced(s, lo, hi);
    lemma_headers_bounds(s, lo, hi);
    match headers_parse(s, lo, hi) {
        Err(_) => {},
        Ok((blo, fields)) => {
            match mode_of(fields) {
                Err(_) => {},
                Ok(ctl) => {
                    if lo < blo && blo <= hi {
                        lemma_body_sliced(s, blo, hi, ctl);
                    }
                },
            }
        },
    }
}

// ---------------------------------------------------------------------------
// Quoted strings round-trip
// ---------------------------------------------------------------------------

/// The escaped form of a payload: qtext bytes stand for themselves, every
/// other quotable byte becomes a quoted pair.
pub open spec fn escaped(p: Seq<u8>) -> Seq<u8>
    decreases p.len(),
{
    if p.len() == 0 {
        Seq::empty()
    } else {
        let head: Seq<u8> = if spec_is_qtext(p[0]) {
            seq![p[0]]
        } else {
            seq![92u8, p[0]]
        };
        head + escaped(p.drop_first())
    }
}

/// The payload re-quoted: a double quote, the escaped payload, a double
/// quote.
pub open spec fn quote_of(p: Seq<u8>) -> Seq<u8> {
    seq![34u8] + escaped(p) + seq![34u8]
}

/// Re-quotes a payload of quotable bytes.
pub fn quote_payload(p: &[u8]) -> (r: Vec<u8>)
    ensures
        r@ == quote_of(p@),
{
    let mut out: Vec<u8> = Vec::new();
    out.push(34);
    let mut mid = escape_from(p, 0);
    out.append(&mut mid);
    out.push(34);
    proof {
        assert(p@.subrange(0, p@.len() as int) =~= p@);
        assert(out@ =~= quote_of(p@));
    }
    out
}

fn escape_from(p: &[u8], i: usize) -> (r: Vec<u8>)
    requires
        i <= p@.len(),
    ensures
        r@ == escaped(p@.subrange(i as int, p@.len() as int)),
    decreases p@.len() - i,
{
    let n = p.len();
    let ghost tail = p@.subrange(i as int, n as int);
    if i == n {
        proof {
            assert(tail =~= Seq::<u8>::empty());
        }
        Vec::new()
    } else {
        let mut rest = escape_from(p, i + 1);
        proof {
            assert(tail.drop_first() =~= p@.subrange(i + 1, n as int));
        }
        let mut out: Vec<u8> = Vec::new();
        if !crate::lex::is_qtext(p[i]) {
            out.push(92);
        }
        out.push(p[i]);
        out.append(&mut rest);
        assert(out@ =~= escaped(p@.subrange(i as int, n as int)));
        out
    }
}

/// Inside the quotes, the escaped payload reads back as exactly the
/// payload.
proof fn lemma_qs_tail_quote(p: Seq<u8>, s: Seq<u8>, pos: int, end: int)
    requires
        forall|i: int| 0 <= i < p.len() ==> spec_is_quotable(#[trigger] p[i]),
        0 <= pos,
        pos + escaped(p).len() + 1 <= end <= s.len(),
        s.subrange(pos, pos + escaped(p).len() + 1) == escaped(p) + seq![34u8],
    ensures
        qs_tail(s, pos, end) == Some((pos + escaped(p).len() + 1, p)),
    decreases p.len(),
{
    let el = escaped(p).len() as int;
    let chunk = s.subrange(pos, pos + el + 1);
    if p.len() == 0 {
        assert(s[pos] == chunk[0]);
        assert(s[pos] == 34);
        assert(fws_end(s, pos, end) is None);
        assert(quoted_pair_end(s, pos, end) is None);
        assert(qs_tail(s, pos, end) == Some((pos + 1, Seq::<u8>::empty())));
        assert(p =~= Seq::<u8>::empty());
    } else {
        let b = p[0];
        let rest = p.drop_first();
        let hl: int = if spec_is_qtext(b) {
            1
        } else {
            2
        };
        assert(escaped(p) == (if spec_is_qtext(b) {
            seq![b]
        } else {
            seq![92u8, b]
        }) + escaped(rest));
        assert(s.subrange(pos + hl, pos + el + 1) =~= escaped(rest) + seq![34u8]) by {
            assert forall|j: int| 0 <= j < el + 1 - hl implies s.subrange(
                pos + hl,
                pos + el + 1,
            )[j] == (escaped(rest) + seq![34u8])[j] by {
                assert(s.subrange(pos + hl, pos + el + 1)[j] == chunk[hl + j]);
            }
        }
        assert forall|i: int| 0 <= i < rest.len() implies spec_is_quotable(
            #[trigger] rest[i],
        ) by {
            assert(rest[i] == p[i + 1]);
        }
        lemma_qs_tail_quote(rest, s, pos + hl, end);
        if spec_is_qtext(b) {
            assert(s[pos] == chunk[0]);
            assert(s[pos] == b);
            assert(!spec_is_wsp(b));
            assert(fws_end(s, pos, end) is None);
            assert(qs_tail(s, pos, end) matches Some(q) && q.1 == seq![b] + rest);
            assert(seq![b] + rest =~= p);
        } else {
            assert(s[pos] == chunk[0] && s[pos + 1] == chunk[1]);
            assert(s[pos] == 92 && s[pos + 1] == b);
            assert(fws_end(s, pos, end) is None);
            assert(!spec_is_qtext(92u8));
            assert(quoted_pair_end(s, pos, end) == Some((pos + 2, b)));
            assert(qs_tail(s, pos, end) matches Some(q) && q.1 == seq![b] + rest);
            assert(seq![b] + rest =~= p);
        }
    }
}

/// A quoted string round-trips: re-quoting a payload of quotable bytes and
/// parsing the result yields the payload back, consuming the whole input.
pub proof fn lemma_quoted_string_round_trip(p: Seq<u8>)
    requires
        forall|i: int| 0 <= i < p.len() ==> spec_is_quotable(#[trigger] p[i]),
    ensures
        quoted_string_end(quote_of(p), 0, quote_of(p).len() as int) == Some(
            (quote_of(p).len() as int, p),
        ),
{
    let s = quote_of(p);
    let n = s.len() as int;
    assert(s[0] == 34);
    assert(fws_end(s, 0, n) is None);
    assert(comment_end(s, 0, n) is None);
    assert(cfws_end(s, 0, n) is None);
    assert(opt_cfws(s, 0, n) == 0);
    assert(s.subrange(1, n) =~= escaped(p) + seq![34u8]);
    lemma_qs_tail_quote(p, s, 1, n);
    assert(fws_end(s, n, n) is None);
    assert(comment_end(s, n, n) is None);
    assert(cfws_end(s, n, n) is None);
    assert(opt_cfws(s, n, n) == n);
}

// ---------------------------------------------------------------------------
// Multipart parse / unparse
// ---------------------------------------------------------------------------

/// One header field written back: `name ":" raw-body CRLF`.
pub open spec fn field_bytes(f: AbsHeaderField) -> Seq<u8> {
    f.name + seq![58u8] + f.raw + seq![13u8, 10u8]
}

/// A header block written back, without the terminating blank line.
pub open spec fn header_bytes(fields: Seq<AbsHeaderField>) -> Seq<u8>
    decreases fields,
{
    if fields.len() == 0 {
        Seq::empty()
    } else {
        field_bytes(fields[0]) + header_bytes(fields.drop_first())
    }
}

/// The boundary the header block names for its multipart body.
pub open spec fn boundary_of(fields: Seq<AbsHeaderField>) -> Seq<u8> {
    match first_ct_from(fields, 0) {
        Some(i) => match fields[i].inner {
            AbsHeaderFieldInner::ContentType(ct) => params_map(ct.params)[lit_boundary()],
            _ => Seq::empty(),
        },
        None => Seq::empty(),
    }
}

/// `--boundary CRLF`: the line that opens a multipart body.
pub open spec fn open_delim(b: Seq<u8>) -> Seq<u8> {
    seq![45u8, 45u8] + b + seq![13u8, 10u8]
}

/// `CRLF --boundary CRLF`: the delimiter between two parts.
pub open spec fn mid_delim(b: Seq<u8>) -> Seq<u8> {
    seq![13u8, 10u8, 45u8, 45u8] + b + seq![13u8, 10u8]
}

/// `CRLF --boundary-- CRLF`: the close-delimiter after the last part.
pub open spec fn close_delim(b: Seq<u8>) -> Seq<u8> {
    seq![13u8, 10u8, 45u8, 45u8] + b + seq![45u8, 45u8, 13u8, 10u8]
}

/// `--boundary-- CRLF`: an immediate close-delimiter, for a multipart with
/// no parts.
pub open spec fn close_first_delim(b: Seq<u8>) -> Seq<u8> {
    seq![45u8, 45u8] + b + seq![45u8, 45u8, 13u8, 10u8]
}

/// A message written back: its header block, the blank line, and its body.
pub open spec fn unparse_msg(m: AbsMessage) -> Seq<u8>
    decreases m, 1int,
{
    header_bytes(m.header) + seq![13u8, 10u8] + unparse_body(m.body, boundary_of(m.header))
}

pub open spec fn unparse_body(bd: AbsBody, b: Seq<u8>) -> Seq<u8>
    decreases bd, 1int,
{
    match bd {
        AbsBody::Text(_) => Seq::empty(),
        AbsBody::Binary(d) => d,
        AbsBody::Multipart { preamble, parts, epilogue, first_at_start, .. } => {
            if first_at_start {
                if parts.len() == 0 {
                    preamble + close_first_delim(b) + epilogue
                } else {
                    preamble + open_delim(b) + parts_glued(parts, b) + close_delim(b) + epilogue
                }
            } else {
                if parts.len() == 0 {
                    preamble + close_delim(b) + epilogue
                } else {
                    preamble + mid_delim(b) + parts_glued(parts, b) + close_delim(b) + epilogue
                }
            }
        },
    }
}

/// The parts written back, a mid-delimiter between each two.
pub open spec fn parts_glued(parts: Seq<AbsMessage>, b: Seq<u8>) -> Seq<u8>
    decreases parts, 2int,
{
    if parts.len() == 0 {
        Seq::empty()
    } else if parts.len() == 1 {
        unparse_msg(parts[0])
    } else {
        unparse_msg(parts[0]) + mid_delim(b) + parts_glued(parts.drop_first(), b)
    }
}

/// Whether writing the message back can reproduce its bytes: no lossy text
/// decoding, no non-trivial transfer encoding, recursively through the
/// parts.
pub open spec fn lossless(m: AbsMessage) -> bool
    decreases m, 1int,
{
    match m.body {
        AbsBody::Text(_) => false,
        AbsBody::Binary(_) => match cte_of(m.header) {
            Some(c) => c.spec_is_trivial(),
            None => true,
        },
        AbsBody::Multipart { parts, .. } => parts_lossless(parts),
    }
}

pub open spec fn parts_lossless(parts: Seq<AbsMessage>) -> bool
    decreases parts, 2int,
{
    if parts.len() == 0 {
        true
    } else {
        lossless(parts[0]) && parts_lossless(parts.drop_first())
    }
}

/// A header block writes back to exactly the bytes it was read from.
proof fn lemma_header_bytes(s: Seq<u8>, pos: int, hi: int)
    requires
        0 <= pos <= hi <= s.len(),
    ensures
        headers_parse(s, pos, hi) matches Ok(p) ==> p.0 >= pos + 2 && s.subrange(pos, p.0)
            == header_bytes(p.1) + seq![13u8, 10u8],
    decreases hi - pos,
{
    lemma_headers_bounds(s, pos, hi);
    match header_field_parse(s, pos, hi) {
        Err(_) => {},
        Ok(None) => {
            match headers_parse(s, pos, hi) {
                Ok(p) => {
                    assert(s.subrange(pos, pos + 2) =~= header_bytes(Seq::empty()) + seq![
                        13u8,
                        10u8,
                    ]);
                },
                Err(_) => {},
            }
        },
        Ok(Some(p)) => {
            if pos < p.0 && p.0 <= hi {
                lemma_header_bytes(s, p.0, hi);
                match headers_parse(s, p.0, hi) {
                    Ok(q) => {
                        // the field occupies [pos, p.0): name ":" raw CRLF
                        let ne = crate::lex::run_end(s, pos, hi, crate::lex::PredKind::Ftext);
                        crate::lex::lemma_run_end(s, pos, hi, crate::lex::PredKind::Ftext);
                        crate::lex::lemma_unstructured_bounds(s, ne + 1, hi);
                        assert(s.subrange(pos, p.0) =~= field_bytes(p.1) + s.subrange(p.0, p.0));
                        assert(s.subrange(pos, p.0) =~= field_bytes(p.1));
                        assert(s.subrange(pos, q.0) =~= s.subrange(pos, p.0) + s.subrange(
                            p.0,
                            q.0,
                        ));
                        assert((seq![p.1] + q.1).drop_first() =~= q.1);
                        assert(header_bytes(seq![p.1] + q.1) == field_bytes(p.1) + header_bytes(
                            q.1,
                        ));
                        assert(s.subrange(pos, q.0) =~= header_bytes(seq![p.1] + q.1) + seq![
                            13u8,
                            10u8,
                        ]);
                    },
                    Err(_) => {},
                }
            }
        },
    }
}


/// The bytes of a delimiter found after a part: `CRLF --boundary CRLF`, or
/// with `--` before the final CRLF when it closes the container.
proof fn lemma_delim_bytes(s: Seq<u8>, ds: int, hi: int, b: Seq<u8>)
    requires
        0 <= ds,
        hi <= s.len(),
        crlf_at(s, ds, hi),
        bound_match(s, ds + 2, hi, b) is Some,
    ensures
        !(bound_match(s, ds + 2, hi, b)->0).1 ==> s.subrange(
            ds,
            (bound_match(s, ds + 2, hi, b)->0).0,
        ) == mid_delim(b),
        (bound_match(s, ds + 2, hi, b)->0).1 ==> s.subrange(
            ds,
            (bound_match(s, ds + 2, hi, b)->0).0,
        ) == close_delim(b),
{
    let p = ds + 2;
    let q = p + 2 + b.len();
    let m = bound_match(s, p, hi, b)->0;
    assert(s.subrange(p + 2, q) == b);
    if !m.1 {
        assert(m.0 == q + 2);
        assert(s.subrange(ds, q + 2) =~= s.subrange(ds, p) + s.subrange(p, p + 2) + s.subrange(
            p + 2,
            q,
        ) + s.subrange(q, q + 2));
        assert(s.subrange(ds, p) =~= seq![13u8, 10u8]);
        assert(s.subrange(p, p + 2) =~= seq![45u8, 45u8]);
        assert(s.subrange(q, q + 2) =~= seq![13u8, 10u8]);
        assert(mid_delim(b) =~= seq![13u8, 10u8] + seq![45u8, 45u8] + b + seq![13u8, 10u8]);
    } else {
        assert(m.0 == q + 4);
        assert(s.subrange(ds, q + 4) =~= s.subrange(ds, p) + s.subrange(p, p + 2) + s.subrange(
            p + 2,
            q,
        ) + s.subrange(q, q + 4));
        assert(s.subrange(ds, p) =~= seq![13u8, 10u8]);
        assert(s.subrange(p, p + 2) =~= seq![45u8, 45u8]);
        assert(s.subrange(q, q + 4) =~= seq![45u8, 45u8, 13u8, 10u8]);
        assert(close_delim(b) =~= seq![13u8, 10u8] + seq![45u8, 45u8] + b + seq![
            45u8,
            45u8,
            13u8,
            10u8,
        ]);
    }
}

/// The bytes of the first boundary line: `--boundary CRLF`, or with `--`
/// before the CRLF when the container closes at once.
proof fn lemma_first_bound_bytes(s: Seq<u8>, ps: int, hi: int, b: Seq<u8>)
    requires
        0 <= ps,
        hi <= s.len(),
        bound_match(s, ps, hi, b) is Some,
    ensures
        !(bound_match(s, ps, hi, b)->0).1 ==> s.subrange(ps, (bound_match(s, ps, hi, b)->0).0)
            == open_delim(b),
        (bound_match(s, ps, hi, b)->0).1 ==> s.subrange(ps, (bound_match(s, ps, hi, b)->0).0)
            == close_first_delim(b),
{
    let q = ps + 2 + b.len();
    let m = bound_match(s, ps, hi, b)->0;
    assert(s.subrange(ps + 2, q) == b);
    if !m.1 {
        assert(m.0 == q + 2);
        assert(s.subrange(ps, q + 2) =~= s.subrange(ps, ps + 2) + s.subrange(ps + 2, q)
            + s.subrange(q, q + 2));
        assert(s.subrange(ps, ps + 2) =~= seq![45u8, 45u8]);
        assert(s.subrange(q, q + 2) =~= seq![13u8, 10u8]);
        assert(open_delim(b) =~= seq![45u8, 45u8] + b + seq![13u8, 10u8]);
    } else {
        assert(m.0 == q + 4);
        assert(s.subrange(ps, q + 4) =~= s.subrange(ps, ps + 2) + s.subrange(ps + 2, q)
            + s.subrange(q, q + 4));
        assert(s.subrange(ps, ps + 2) =~= seq![45u8, 45u8]);
        assert(s.subrange(q, q + 4) =~= seq![45u8, 45u8, 13u8, 10u8]);
        assert(close_first_delim(b) =~= seq![45u8, 45u8] + b + seq![45u8, 45u8, 13u8, 10u8]);
    }
}

proof fn lemma_mp_parts_glued(s: Seq<u8>, cur: int, hi: int, b: Seq<u8>)
    requires
        0 <= cur <= hi <= s.len(),
    ensures
        (mp_parts(s, cur, hi, b) is Ok && parts_lossless((mp_parts(s, cur, hi, b)->Ok_0).1))
            ==> cur <= (mp_parts(s, cur, hi, b)->Ok_0).2 <= hi && s.subrange(
            cur,
            (mp_parts(s, cur, hi, b)->Ok_0).2,
        ) == parts_glued((mp_parts(s, cur, hi, b)->Ok_0).1, b) + close_delim(b),
    decreases hi - cur, 0int,
{
    lemma_find_delim(s, cur, hi, b);
    lemma_find_delim_where(s, cur, hi, b);
    match find_delim(s, cur, hi, b) {
        None => {},
        Some((ds, dafter, closed)) => {
            if cur <= ds && ds < hi && cur < dafter && dafter <= hi {
                lemma_unparse_message(s, cur, ds);
                match spec_message(s, cur, ds) {
                    Err(_) => {},
                    Ok(pm) => {
                        if closed {
                            if parts_lossless(seq![pm]) {
                                assert(seq![pm][0] == pm);
                                assert(lossless(pm));
                                lemma_delim_bytes(s, ds, hi, b);
                                assert(s.subrange(ds, dafter) == close_delim(b));
                                assert(s.subrange(cur, dafter) =~= s.subrange(cur, ds)
                                    + s.subrange(ds, dafter));
                                assert(parts_glued(seq![pm], b) == unparse_msg(pm));
                                assert(s.subrange(cur, dafter) =~= parts_glued(seq![pm], b)
                                    + close_delim(b));
                            }
                        } else {
                            lemma_mp_parts_glued(s, dafter, hi, b);
                            match mp_parts(s, dafter, hi, b) {
                                Ok(q) => {
                                    let whole = seq![pm] + q.1;
                                    if parts_lossless(whole) {
                                        assert(whole[0] == pm);
                                        assert(whole.drop_first() =~= q.1);
                                        assert(lossless(pm));
                                        assert(parts_lossless(q.1));
                                        lemma_delim_bytes(s, ds, hi, b);
                                        assert(s.subrange(ds, dafter) == mid_delim(b));
                                        assert(q.1.len() >= 1);
                                        assert(whole.len() >= 2);
                                        assert(parts_glued(whole, b) == unparse_msg(pm)
                                            + mid_delim(b) + parts_glued(q.1, b));
                                        assert(s.subrange(cur, q.2) =~= s.subrange(cur, ds)
                                            + s.subrange(ds, dafter) + s.subrange(dafter, q.2));
                                        assert(s.subrange(cur, q.2) =~= parts_glued(whole, b)
                                            + close_delim(b));
                                    }
                                },
                                Err(_) => {},
                            }
                        }
                    },
                }
            }
        },
    }
}

proof fn lemma_mp_parts_nonempty(s: Seq<u8>, cur: int, hi: int, b: Seq<u8>)
    requires
        0 <= cur <= hi <= s.len(),
    ensures
        mp_parts(s, cur, hi, b) matches Ok(q) ==> q.1.len() >= 1,
    decreases hi - cur, 0int,
{
    match find_delim(s, cur, hi, b) {
        None => {},
        Some((ds, dafter, closed)) => {
            if cur <= ds && ds < hi && cur < dafter && dafter <= hi {
                if !closed {
                    lemma_mp_parts_nonempty(s, dafter, hi, b);
                }
            }
        },
    }
}

/// Where `find_delim` points, a CRLF and a dash-boundary stand.
proof fn lemma_find_delim_where(s: Seq<u8>, pos: int, hi: int, b: Seq<u8>)
    requires
        0 <= pos <= hi <= s.len(),
    ensures
        find_delim(s, pos, hi, b) matches Some(z) ==> crlf_at(s, z.0, hi) && bound_match(
            s,
            z.0 + 2,
            hi,
            b,
        ) == Some((z.1, z.2)),
    decreases hi - pos,
{
    if pos < hi {
        if !(crlf_at(s, pos, hi) && bound_match(s, pos + 2, hi, b) is Some) {
            lemma_find_delim_where(s, pos + 1, hi, b);
        }
    }
}

#[verifier::rlimit(100)]
proof fn lemma_unparse_body(s: Seq<u8>, blo: int, hi: int, ctl: AbsMimeCtl, fields: Seq<
    AbsHeaderField,
>)
    requires
        0 <= blo <= hi <= s.len(),
        mode_of(fields) == Ok::<AbsMimeCtl, crate::error::AbsError>(ctl),
    ensures
        (body_parse(s, blo, hi, ctl) matches Ok(bd) && (match bd {
            AbsBody::Text(_) => false,
            AbsBody::Binary(_) => match cte_of(fields) {
                Some(c) => c.spec_is_trivial(),
                None => true,
            },
            AbsBody::Multipart { parts, .. } => parts_lossless(parts),
        })) ==> unparse_body(body_parse(s, blo, hi, ctl)->Ok_0, boundary_of(fields))
            == s.subrange(blo, hi),
    decreases hi - blo, 1int,
{
    let b = boundary_of(fields);
    match ctl {
        AbsMimeCtl::Text { .. } => {},
        AbsMimeCtl::Binary { enc } => {
            match body_parse(s, blo, hi, ctl) {
                Ok(bd) => {
                    assert(enc == cte_of(fields));
                    if (match cte_of(fields) {
                        Some(c) => c.spec_is_trivial(),
                        None => true,
                    }) {
                        lemma_trivial_cte_identity(s, blo, hi, enc);
                    }
                },
                Err(_) => {},
            }
        },
        AbsMimeCtl::Multipart { boundary } => {
            assert(boundary == b);
            match bound_match(s, blo, hi, boundary) {
                Some(m) => {
                    if m.0 <= hi {
                        if m.1 {
                            lemma_first_bound_bytes(s, blo, hi, boundary);
                            assert(s.subrange(blo, m.0) == close_first_delim(b));
                            assert(s.subrange(blo, hi) =~= s.subrange(blo, m.0) + s.subrange(
                                m.0,
                                hi,
                            ));
                            assert(Seq::<u8>::empty() + close_first_delim(b) + s.subrange(
                                m.0,
                                hi,
                            ) =~= s.subrange(blo, m.0) + s.subrange(m.0, hi));
                        } else if blo < m.0 {
                            lemma_mp_parts_glued(s, m.0, hi, boundary);
                            lemma_mp_parts_nonempty(s, m.0, hi, boundary);
                            match mp_parts(s, m.0, hi, boundary) {
                                Ok(q) => {
                                    if q.2 <= hi && parts_lossless(q.1) {
                                        lemma_first_bound_bytes(s, blo, hi, boundary);
                                        assert(s.subrange(blo, m.0) == open_delim(b));
                                        assert(s.subrange(blo, hi) =~= s.subrange(blo, m.0)
                                            + s.subrange(m.0, q.2) + s.subrange(q.2, hi));
                                        assert(Seq::<u8>::empty() + open_delim(b) + parts_glued(
                                            q.1,
                                            b,
                                        ) + close_delim(b) + s.subrange(q.2, hi) =~= s.subrange(
                                            blo,
                                            m.0,
                                        ) + (parts_glued(q.1, b) + close_delim(b)) + s.subrange(
                                            q.2,
                                            hi,
                                        ));
                                    }
                                },
                                Err(_) => {},
                            }
                        }
                    }
                },
                None => {
                    lemma_find_delim(s, blo, hi, boundary);
                    lemma_find_delim_where(s, blo, hi, boundary);
                    match find_delim(s, blo, hi, boundary) {
                        None => {},
                        Some((ds, dafter, closed)) => {
                            if blo <= ds && ds <= hi && dafter <= hi {
                                if closed {
                                    lemma_delim_bytes(s, ds, hi, b);
                                    assert(s.subrange(ds, dafter) == close_delim(b));
                                    assert(s.subrange(blo, hi) =~= s.subrange(blo, ds)
                                        + s.subrange(ds, dafter) + s.subrange(dafter, hi));
                                } else if blo < dafter {
                                    lemma_mp_parts_glued(s, dafter, hi, boundary);
                                    lemma_mp_parts_nonempty(s, dafter, hi, boundary);
                                    match mp_parts(s, dafter, hi, boundary) {
                                        Ok(q) => {
                                            if q.2 <= hi && parts_lossless(q.1) {
                                                lemma_delim_bytes(s, ds, hi, b);
                                                assert(s.subrange(ds, dafter) == mid_delim(b));
                                                assert(s.subrange(blo, hi) =~= s.subrange(
                                                    blo,
                                                    ds,
                                                ) + s.subrange(ds, dafter) + s.subrange(
                                                    dafter,
                                                    q.2,
                                                ) + s.subrange(q.2, hi));
                                                assert(s.subrange(blo, ds) + mid_delim(b)
                                                    + (parts_glued(q.1, b) + close_delim(b))
                                                    + s.subrange(q.2, hi) =~= s.subrange(blo, ds)
                                                    + s.subrange(ds, dafter) + s.subrange(
                                                    dafter,
                                                    q.2,
                                                ) + s.subrange(q.2, hi));
                                            }
                                        },
                                        Err(_) => {},
                                    }
                                }
                            }
                        },
                    }
                },
            }
        },
    }
}

/// Multipart parse and unparse are inverse: a losslessly-parsed message —
/// its leaf bodies binary under trivial transfer encodings — written back
/// as header block, blank line, preamble, boundary lines, parts and
/// epilogue reproduces exactly the bytes it was parsed from.
pub proof fn lemma_unparse_message(s: Seq<u8>, lo: int, hi: int)
    requires
        0 <= lo <= hi <= s.len(),
    ensures
        (spec_message(s, lo, hi) matches Ok(m) && lossless(m)) ==> unparse_msg(
            spec_message(s, lo, hi)->Ok_0,
        ) == s.subrange(lo, hi),
    decreases hi - lo, 2int,
{
    lemma_header_bytes(s, lo, hi);
    lemma_headers_bounds(s, lo, hi);
    match headers_parse(s, lo, hi) {
        Err(_) => {},
        Ok((blo, fields)) => {
            match mode_of(fields) {
                Err(_) => {},
                Ok(ctl) => {
                    if lo < blo && blo <= hi {
                        lemma_unparse_body(s, blo, hi, ctl, fields);
                        match body_parse(s, blo, hi, ctl) {
                            Ok(bd) => {
                                let m = spec_message(s, lo, hi)->Ok_0;
                                if lossless(m) {
                                    assert(m.header == fields && m.body == bd);
                                    assert(unparse_body(bd, boundary_of(fields)) == s.subrange(
                                        blo,
                                        hi,
                                    ));
                                    assert(s.subrange(lo, hi) =~= s.subrange(lo, blo)
                                        + s.subrange(blo, hi));
                                    assert(unparse_msg(m) == header_bytes(fields) + seq![
                                        13u8,
                                        10u8,
                                    ] + unparse_body(bd, boundary_of(fields)));
                                    assert(unparse_msg(m) =~= s.subrange(lo, hi));
                                }
                            },
                            Err(_) => {},
                        }
                    }
                },
            }
        },
    }
}

// ---------------------------------------------------------------------------
// Unfolding is idempotent
// ---------------------------------------------------------------------------

/// Every CRLF in the value is part of a fold (followed by WSP). This holds
/// of every raw header body the parser produces: the body reader stops at
/// the first CRLF not followed by WSP.
pub open spec fn all_crlf_folded(v: Seq<u8>) -> bool {
    forall|i: int|
        0 <= i && i + 1 < v.len() && #[trigger] v[i] == 13 && v[i + 1] == 10 ==> i + 2 < v.len()
            && spec_is_wsp(v[i + 2])
}

/// No CR immediately followed by LF anywhere in the value.
pub open spec fn no_crlf(v: Seq<u8>) -> bool {
    forall|i: int| 0 <= i && i + 1 < v.len() ==> !(#[trigger] v[i] == 13 && v[i + 1] == 10)
}

/// The first byte of an unfolded value is an LF only if the value itself
/// began with one.
proof fn lemma_unfold_first(v: Seq<u8>)
    requires
        v.len() > 0,
    ensures
        unfold_value(v).len() > 0,
        unfold_value(v)[0] == 10 ==> v[0] == 10,
    decreases v.len(),
{
    if v.len() >= 3 && v[0] == 13 && v[1] == 10 && spec_is_wsp(v[2]) {
        lemma_unfold_first(v.subrange(2, v.len() as int));
        assert(v.subrange(2, v.len() as int)[0] == v[2]);
    }
}

/// Unfolding a value whose every CRLF is folded leaves no CRLF at all.
proof fn lemma_unfold_no_crlf(v: Seq<u8>)
    requires
        all_crlf_folded(v),
    ensures
        no_crlf(unfold_value(v)),
    decreases v.len(),
{
    if v.len() == 0 {
    } else if v.len() >= 3 && v[0] == 13 && v[1] == 10 && spec_is_wsp(v[2]) {
        let w = v.subrange(2, v.len() as int);
        assert forall|i: int| 0 <= i && i + 1 < w.len() && #[trigger] w[i] == 13 && w[i + 1]
            == 10 implies i + 2 < w.len() && spec_is_wsp(w[i + 2]) by {
            assert(v[i + 2] == w[i] && v[(i + 2) + 1] == w[i + 1]);
            assert(v[i + 2] == 13);
        }
        lemma_unfold_no_crlf(w);
    } else {
        let w = v.subrange(1, v.len() as int);
        assert forall|i: int| 0 <= i && i + 1 < w.len() && #[trigger] w[i] == 13 && w[i + 1]
            == 10 implies i + 2 < w.len() && spec_is_wsp(w[i + 2]) by {
            assert(v[i + 1] == w[i] && v[(i + 1) + 1] == w[i + 1]);
            assert(v[i + 1] == 13);
        }
        lemma_unfold_no_crlf(w);
        let out = unfold_value(v);
        assert(out == seq![v[0]] + unfold_value(w));
        assert forall|i: int| 0 <= i && i + 1 < out.len() implies !(#[trigger] out[i] == 13
            && out[i + 1] == 10) by {
            if i == 0 {
                if v[0] == 13 && out.len() > 1 {
                    if w.len() > 0 {
                        lemma_unfold_first(w);
                        if out[1] == 10 {
                            assert(unfold_value(w)[0] == 10);
                            assert(w[0] == 10);
                            assert(v[0int + 1] == 10);
                            assert(v[0] == 13);
                            // a CRLF at the head would have been a fold
                            assert(false);
                        }
                    }
                }
            } else {
                assert(unfold_value(w)[i - 1] == out[i]);
                assert(unfold_value(w)[i] == out[i + 1]);
                assert(!(unfold_value(w)[i - 1] == 13 && unfold_value(w)[(i - 1) + 1] == 10));
            }
        }
    }
}

/// A value with no folds unfolds to itself.
proof fn lemma_unfold_fixed(v: Seq<u8>)
    requires
        no_crlf(v),
    ensures
        unfold_value(v) == v,
    decreases v.len(),
{
    if v.len() == 0 {
        assert(unfold_value(v) =~= v);
    } else if v.len() >= 3 && v[0] == 13 && v[1] == 10 && spec_is_wsp(v[2]) {
        assert(!(v[0int] == 13 && v[0int + 1] == 10));
        assert(false);
    } else {
        let w = v.subrange(1, v.len() as int);
        assert forall|i: int| 0 <= i && i + 1 < w.len() implies !(#[trigger] w[i] == 13 && w[i + 1]
            == 10) by {
            assert(v[i + 1] == w[i] && v[(i + 1) + 1] == w[i + 1]);
        }
        lemma_unfold_fixed(w);
        assert(seq![v[0]] + w =~= v);
    }
}

/// Unfolding is idempotent: unfolding an already-unfolded value is a no-op.
/// The hypothesis holds of every raw header body the parser yields; a value
/// in which a CRLF is followed by another CR, such as `\r\n\r\n\tx`, never
/// reaches the unfolder.
pub proof fn lemma_unfold_idempotent(v: Seq<u8>)
    requires
        all_crlf_folded(v),
    ensures
        unfold_value(unfold_value(v)) == unfold_value(v),
{
    lemma_unfold_no_crlf(v);
    lemma_unfold_fixed(unfold_value(v));
}

// ---------------------------------------------------------------------------
// Address-list parsing is compositional
// ---------------------------------------------------------------------------

/// A byte of a plain address list: atext, a dot, an `@`, a comma, or
/// whitespace — no comments, quoted strings or angle brackets.
pub open spec fn plain_addr_byte(b: u8) -> bool {
    crate::lex::spec_is_atext(b) || b == 46 || b == 64 || b == 44 || spec_is_wsp(b)
}

pub open spec fn plain_seg(s: Seq<u8>, a: int, b: int) -> bool {
    forall|j: int| a <= j < b ==> plain_addr_byte(#[trigger] s[j])
}

/// Over plain bytes stopped by a comma, folding whitespace reaches the
/// same end under either window.
proof fn lemma_fws_ext(s: Seq<u8>, pos: int, mid: int, end: int)
    requires
        0 <= pos <= mid < end <= s.len(),
        s[mid] == 44,
        plain_seg(s, pos, mid),
    ensures
        fws_end(s, pos, mid) == fws_end(s, pos, end),
        fws_end(s, pos, mid) matches Some(e) ==> pos < e <= mid,
{
    crate::lex::lemma_fws_bounds(s, pos, mid);
    if pos < mid && spec_is_wsp(s[pos]) {
        lemma_run_ext(s, pos, mid, end, crate::lex::PredKind::Wsp);
        crate::lex::lemma_run_end(s, pos, mid, crate::lex::PredKind::Wsp);
        let r = crate::lex::run_end(s, pos, mid, crate::lex::PredKind::Wsp);
        // no CR occurs among plain bytes, so no fold follows the run
        assert(r < mid ==> s[r] != 13);
        assert(r == mid ==> s[r] != 13);
        assert(crate::lex::obs_fws_tail(s, r, mid) == r);
        assert(crate::lex::obs_fws_tail(s, r, end) == r);
    }
}

/// Over plain bytes stopped by a comma, CFWS reaches the same end under
/// either window (comments cannot start, folds cannot occur).
proof fn lemma_cfws_ext(s: Seq<u8>, pos: int, mid: int, end: int)
    requires
        0 <= pos <= mid < end <= s.len(),
        s[mid] == 44,
        plain_seg(s, pos, mid),
    ensures
        cfws_end(s, pos, mid) == cfws_end(s, pos, end),
        opt_cfws(s, pos, mid) == opt_cfws(s, pos, end),
        pos <= opt_cfws(s, pos, mid) <= mid,
{
    lemma_fws_ext(s, pos, mid, end);
    crate::lex::lemma_cfws_bounds(s, pos, mid);
    let p1m = crate::lex::opt_fws(s, pos, mid);
    let p1e = crate::lex::opt_fws(s, pos, end);
    assert(p1m == p1e);
    assert(p1m <= mid);
    assert(p1m < mid ==> s[p1m] != 40);
    assert(comment_end(s, p1m, mid) is None);
    assert(comment_end(s, p1e, end) is None);
}

/// A run that a byte at `mid` would stop reaches the same end under a
/// larger window.
proof fn lemma_run_ext(s: Seq<u8>, pos: int, mid: int, end: int, k: crate::lex::PredKind)
    requires
        0 <= pos <= mid < end <= s.len(),
        !crate::lex::pred_holds(k, s[mid]),
    ensures
        crate::lex::run_end(s, pos, mid, k) == crate::lex::run_end(s, pos, end, k),
    decreases mid - pos,
{
    if pos < mid && crate::lex::pred_holds(k, s[pos]) {
        lemma_run_ext(s, pos + 1, mid, end, k);
    }
}

proof fn lemma_dat_tail_ext(s: Seq<u8>, pos: int, mid: int, end: int)
    requires
        0 <= pos <= mid < end <= s.len(),
        s[mid] == 44,
    ensures
        crate::lex::dot_atom_text_tail(s, pos, mid) == crate::lex::dot_atom_text_tail(
            s,
            pos,
            end,
        ),
    decreases mid - pos,
{
    crate::lex::lemma_run_end(s, pos, mid, crate::lex::PredKind::Atext);
    if pos < mid && s[pos] == 46 {
        lemma_run_ext(s, pos + 1, mid, end, crate::lex::PredKind::Atext);
        let e = crate::lex::run_end(s, pos + 1, mid, crate::lex::PredKind::Atext);
        crate::lex::lemma_run_end(s, pos + 1, mid, crate::lex::PredKind::Atext);
        if pos + 1 < e && e <= mid {
            lemma_dat_tail_ext(s, e, mid, end);
        }
    }
}

proof fn lemma_dot_atom_ext(s: Seq<u8>, pos: int, mid: int, end: int)
    requires
        0 <= pos <= mid < end <= s.len(),
        s[mid] == 44,
        plain_seg(s, pos, mid),
    ensures
        crate::lex::dot_atom_end(s, pos, mid) == crate::lex::dot_atom_end(s, pos, end),
{
    lemma_cfws_ext(s, pos, mid, end);
    let p1 = opt_cfws(s, pos, mid);
    lemma_run_ext(s, p1, mid, end, crate::lex::PredKind::Atext);
    crate::lex::lemma_run_end(s, p1, mid, crate::lex::PredKind::Atext);
    let e0 = crate::lex::run_end(s, p1, mid, crate::lex::PredKind::Atext);
    if p1 < e0 {
        lemma_dat_tail_ext(s, e0, mid, end);
        crate::lex::lemma_dot_atom_text_tail_bounds(s, e0, mid);
        let e = crate::lex::dot_atom_text_tail(s, e0, mid);
        lemma_cfws_ext(s, e, mid, end);
    }
}

proof fn lemma_qs_fail(s: Seq<u8>, pos: int, mid: int, end: int)
    requires
        0 <= pos <= mid < end <= s.len(),
        s[mid] == 44,
        plain_seg(s, pos, mid),
    ensures
        quoted_string_end(s, pos, mid) is None,
        quoted_string_end(s, pos, end) is None,
{
    lemma_cfws_ext(s, pos, mid, end);
}

proof fn lemma_atom_ext(s: Seq<u8>, pos: int, mid: int, end: int)
    requires
        0 <= pos <= mid < end <= s.len(),
        s[mid] == 44,
        plain_seg(s, pos, mid),
    ensures
        crate::lex::atom_end(s, pos, mid) == crate::lex::atom_end(s, pos, end),
{
    lemma_cfws_ext(s, pos, mid, end);
    let p1 = opt_cfws(s, pos, mid);
    lemma_run_ext(s, p1, mid, end, crate::lex::PredKind::Atext);
    crate::lex::lemma_run_end(s, p1, mid, crate::lex::PredKind::Atext);
    let e = crate::lex::run_end(s, p1, mid, crate::lex::PredKind::Atext);
    if p1 < e {
        lemma_cfws_ext(s, e, mid, end);
    }
}

proof fn lemma_word_ext(s: Seq<u8>, pos: int, mid: int, end: int)
    requires
        0 <= pos <= mid < end <= s.len(),
        s[mid] == 44,
        plain_seg(s, pos, mid),
    ensures
        crate::lex::word_end(s, pos, mid) == crate::lex::word_end(s, pos, end),
{
    lemma_atom_ext(s, pos, mid, end);
    lemma_qs_fail(s, pos, mid, end);
}

proof fn lemma_phrase_tail_ext(s: Seq<u8>, pos: int, mid: int, end: int)
    requires
        0 <= pos <= mid < end <= s.len(),
        s[mid] == 44,
        plain_seg(s, pos, mid),
    ensures
        crate::lex::phrase_tail(s, pos, mid) == crate::lex::phrase_tail(s, pos, end),
    decreases mid - pos,
{
    lemma_word_ext(s, pos, mid, end);
    crate::lex::lemma_word_bounds(s, pos, mid);
    match crate::lex::word_end(s, pos, mid) {
        Some(p) => {
            if pos < p.0 && p.0 <= mid {
                lemma_phrase_tail_ext(s, p.0, mid, end);
            }
        },
        None => {
            if pos < mid && s[pos] == 46 {
                lemma_phrase_tail_ext(s, pos + 1, mid, end);
            } else {
                lemma_cfws_ext(s, pos, mid, end);
                crate::lex::lemma_cfws_bounds(s, pos, mid);
                match cfws_end(s, pos, mid) {
                    Some(e) => {
                        if pos < e && e <= mid {
                            lemma_phrase_tail_ext(s, e, mid, end);
                        }
                    },
                    None => {},
                }
            }
        },
    }
}

proof fn lemma_phrase_ext(s: Seq<u8>, pos: int, mid: int, end: int)
    requires
        0 <= pos <= mid < end <= s.len(),
        s[mid] == 44,
        plain_seg(s, pos, mid),
    ensures
        crate::lex::phrase_end(s, pos, mid) == crate::lex::phrase_end(s, pos, end),
{
    lemma_word_ext(s, pos, mid, end);
    crate::lex::lemma_word_bounds(s, pos, mid);
    match crate::lex::word_end(s, pos, mid) {
        Some(p) => {
            if pos < p.0 && p.0 <= mid {
                lemma_phrase_tail_ext(s, p.0, mid, end);
            }
        },
        None => {},
    }
}

proof fn lemma_angle_fail(s: Seq<u8>, pos: int, mid: int, end: int)
    requires
        0 <= pos <= mid < end <= s.len(),
        s[mid] == 44,
        plain_seg(s, pos, mid),
    ensures
        crate::address::angle_addr_end(s, pos, mid) is None,
        crate::address::angle_addr_end(s, pos, end) is None,
{
    lemma_cfws_ext(s, pos, mid, end);
}

proof fn lemma_addr_spec_ext(s: Seq<u8>, pos: int, mid: int, end: int)
    requires
        0 <= pos <= mid < end <= s.len(),
        s[mid] == 44,
        plain_seg(s, pos, mid),
    ensures
        crate::address::addr_spec_end(s, pos, mid) == crate::address::addr_spec_end(s, pos, end),
{
    lemma_dot_atom_ext(s, pos, mid, end);
    lemma_qs_fail(s, pos, mid, end);
    crate::lex::lemma_dot_atom_bounds(s, pos, mid);
    crate::lex::lemma_quoted_string_bounds(s, pos, mid);
    let local: Option<int> = match crate::lex::dot_atom_end(s, pos, mid) {
        Some(p) => Some(p.0),
        None => match quoted_string_end(s, pos, mid) {
            Some(p) => Some(p.0),
            None => None,
        },
    };
    match local {
        Some(e) => {
            if 0 <= e && e <= mid {
                if e < mid && s[e] == 64 {
                    lemma_dot_atom_ext(s, e + 1, mid, end);
                    lemma_cfws_ext(s, e + 1, mid, end);
                }
            }
        },
        None => {},
    }
}

proof fn lemma_mailbox_ext(s: Seq<u8>, pos: int, mid: int, end: int)
    requires
        0 <= pos <= mid < end <= s.len(),
        s[mid] == 44,
        plain_seg(s, pos, mid),
    ensures
        crate::address::mailbox_end(s, pos, mid) == crate::address::mailbox_end(s, pos, end),
{
    lemma_phrase_ext(s, pos, mid, end);
    crate::lex::lemma_phrase_bounds(s, pos, mid);
    lemma_angle_fail(s, pos, mid, end);
    lemma_addr_spec_ext(s, pos, mid, end);
    match crate::lex::phrase_end(s, pos, mid) {
        Some(p) => {
            if pos < p.0 && p.0 <= mid {
                lemma_angle_fail(s, p.0, mid, end);
            }
        },
        None => {},
    }
}

proof fn lemma_address_ext(s: Seq<u8>, pos: int, mid: int, end: int)
    requires
        0 <= pos <= mid < end <= s.len(),
        s[mid] == 44,
        plain_seg(s, pos, mid),
    ensures
        crate::address::address_end(s, pos, mid) == crate::address::address_end(s, pos, end),
{
    lemma_mailbox_ext(s, pos, mid, end);
    lemma_phrase_ext(s, pos, mid, end);
    crate::lex::lemma_phrase_bounds(s, pos, mid);
}

proof fn lemma_al_tail_join(s: Seq<u8>, p: int, mid: int, end: int)
    requires
        0 <= p <= mid < end <= s.len(),
        s[mid] == 44,
        plain_seg(s, p, mid),
        crate::address::al_tail(s, p, mid).0 == mid,
        crate::address::address_list_end(s, mid + 1, end) matches Some(q) && q.0 == end,
    ensures
        crate::address::al_tail(s, p, end) == (
            end,
            crate::address::al_tail(s, p, mid).1 + (crate::address::address_list_end(
                s,
                mid + 1,
                end,
            )->0).1,
        ),
    decreases mid - p,
{
    let l2 = (crate::address::address_list_end(s, mid + 1, end)->0).1;
    if p == mid {
        // the combined tail continues straight into the second list
        crate::address::lemma_address_bounds(s, mid + 1, end);
        crate::address::lemma_al_tail_bounds(s, mid + 1, end);
        match crate::address::address_end(s, mid + 1, end) {
            Some(p2) => {
                let q2 = crate::address::al_tail(s, p2.0, end);
                assert(crate::address::al_tail(s, p, end) == (q2.0, seq![p2.1] + q2.1));
                assert(l2 == seq![p2.1] + q2.1);
                assert(crate::address::al_tail(s, p, mid).1 + l2 =~= l2);
            },
            None => {
                assert(false);
            },
        }
    } else {
        // p < mid: the hypothesis forces the comma-then-address branch
        crate::address::lemma_address_bounds(s, p + 1, mid);
        if s[p] == 44 {
            lemma_address_ext(s, p + 1, mid, end);
            match crate::address::address_end(s, p + 1, mid) {
                Some(q) => {
                    if p < q.0 && q.0 <= mid {
                        lemma_al_tail_join(s, q.0, mid, end);
                        let inner = crate::address::al_tail(s, q.0, mid);
                        assert(crate::address::al_tail(s, q.0, end) == (end, inner.1 + l2));
                        assert(seq![q.1] + (inner.1 + l2) =~= (seq![q.1] + inner.1) + l2);
                    } else {
                        assert(false);
                    }
                },
                None => {
                    assert(false);
                },
            }
        } else {
            assert(false);
        }
    }
}

/// Address-list parsing is compositional over plain lists: when two valid
/// address lists of atext, dots, `@` and commas stand joined by a comma,
/// the parse of the whole is the concatenation of the individual parses.
pub proof fn lemma_address_list_compositional(s: Seq<u8>, pos: int, mid: int, end: int)
    requires
        0 <= pos <= mid < end <= s.len(),
        s[mid] == 44,
        plain_seg(s, pos, mid),
        crate::address::address_list_end(s, pos, mid) matches Some(p) && p.0 == mid,
        crate::address::address_list_end(s, mid + 1, end) matches Some(q) && q.0 == end,
    ensures
        crate::address::address_list_end(s, pos, end) == Some(
            (
                end,
                (crate::address::address_list_end(s, pos, mid)->0).1 + (
                crate::address::address_list_end(s, mid + 1, end)->0).1,
            ),
        ),
{
    let l1 = (crate::address::address_list_end(s, pos, mid)->0).1;
    let l2 = (crate::address::address_list_end(s, mid + 1, end)->0).1;
    lemma_address_ext(s, pos, mid, end);
    crate::address::lemma_address_bounds(s, pos, mid);
    match crate::address::address_end(s, pos, mid) {
        Some(p1) => {
            if pos < p1.0 && p1.0 <= mid {
                let tail1 = crate::address::al_tail(s, p1.0, mid);
                crate::address::lemma_al_tail_bounds(s, p1.0, mid);
                lemma_al_tail_join(s, p1.0, mid, end);
                assert(crate::address::al_tail(s, p1.0, end) == (end, tail1.1 + l2));
                assert(l1 == seq![p1.1] + tail1.1);
                assert(seq![p1.1] + (tail1.1 + l2) =~= l1 + l2);
            } else {
                assert(false);
            }
        },
        None => {
            assert(false);
        },
    }
}


} // verus!
