//! MIME header values: Content-Type and Content-Transfer-Encoding, their
//! parsers, and transfer decoding of body bytes.

use vstd::prelude::*;
use crate::lex::{
    run_end, opt_cfws, quoted_string_end, PredKind, run_pred, opt_cfws_at, quoted_string_at,
    lemma_cfws_bounds, lemma_run_end, lemma_quoted_string_bounds,
};
use crate::util::{match_ci, match_ci_at, lower_seq, to_lower_vec, copy_range, bytes_eq};
use crate::codec::{b64_decoded, qp_decoded, base64_decode, qp_decode};
use crate::ByteString;

verus! {

// ---------------------------------------------------------------------------
// Content-Transfer-Encoding
// ---------------------------------------------------------------------------

/// The transfer encoding of a body. The first three are "trivial": the body
/// bytes stand for themselves.
#[derive(Copy, Clone, Debug, PartialEq, Eq, Structural)]
pub enum ContentTransferEncoding {
    SevenBit,
    EightBit,
    Binary,
    Base64,
    QuotedPrintable,
}

/// A transfer decoder rejected the body.
#[derive(Debug)]
pub enum ContentDecodeError {
    Base64(base64::DecodeError),
    QuotedPrintable(quoted_printable::QuotedPrintableError),
}

impl ContentTransferEncoding {
    pub open spec fn spec_is_trivial(&self) -> bool {
        match *self {
            ContentTransferEncoding::SevenBit => true,
            ContentTransferEncoding::EightBit => true,
            ContentTransferEncoding::Binary => true,
            ContentTransferEncoding::Base64 => false,
            ContentTransferEncoding::QuotedPrintable => false,
        }
    }

    /// Whether this encoding leaves body bytes unchanged.
    #[verifier::when_used_as_spec(spec_is_trivial)]
    pub fn is_trivial(&self) -> (r: bool)
        ensures
            r == self.spec_is_trivial(),
    {
        match *self {
            ContentTransferEncoding::SevenBit => true,
            ContentTransferEncoding::EightBit => true,
            ContentTransferEncoding::Binary => true,
            ContentTransferEncoding::Base64 => false,
            ContentTransferEncoding::QuotedPrintable => false,
        }
    }

    /// Applies this encoding's decoder to the given bytes: the identity for
    /// the trivial encodings, base64 or quoted-printable decoding otherwise.
    pub fn decode(&self, input: Vec<u8>) -> (r: Result<Vec<u8>, ContentDecodeError>)
        ensures
            r is Ok <==> cte_decoded(*self, input@) is Some,
            r matches Ok(v) ==> Some(v@) == cte_decoded(*self, input@),
            self.spec_is_trivial() ==> (r matches Ok(v) && v@ == input@),
            r matches Err(e) ==> (*self == ContentTransferEncoding::Base64 ==> e is Base64) && (
            *self == ContentTransferEncoding::QuotedPrintable ==> e is QuotedPrintable),
    {
        match *self {
            ContentTransferEncoding::SevenBit => Ok(input),
            ContentTransferEncoding::EightBit => Ok(input),
            ContentTransferEncoding::Binary => Ok(input),
            ContentTransferEncoding::Base64 => match base64_decode(input) {
                Ok(v) => Ok(v),
                Err(e) => Err(ContentDecodeError::Base64(e)),
            },
            ContentTransferEncoding::QuotedPrintable => match qp_decode(input) {
                Ok(v) => Ok(v),
                Err(e) => Err(ContentDecodeError::QuotedPrintable(e)),
            },
        }
    }
}

/// What decoding with the given encoding yields, or nothing on a decoder
/// error.
pub open spec fn cte_decoded(e: ContentTransferEncoding, s: Seq<u8>) -> Option<Seq<u8>> {
    match e {
        ContentTransferEncoding::Base64 => b64_decoded(s),
        ContentTransferEncoding::QuotedPrintable => qp_decoded(s),
        _ => Some(s),
    }
}

// ---------------------------------------------------------------------------
// Content-Type
// ---------------------------------------------------------------------------

/// A parsed Content-Type value: type, subtype, and parameters in order of
/// appearance, attribute names lowercased.
#[derive(Debug)]
pub struct ContentType {
    pub ctype: ByteString,
    pub subtype: ByteString,
    pub parameters: Vec<(ByteString, ByteString)>,
}

/// The mathematical image of a `ContentType`.
pub struct AbsContentType {
    pub ctype: Seq<u8>,
    pub subtype: Seq<u8>,
    pub params: Seq<(Seq<u8>, Seq<u8>)>,
}

impl View for ContentType {
    type V = AbsContentType;

    open spec fn view(&self) -> AbsContentType {
        AbsContentType {
            ctype: self.ctype@,
            subtype: self.subtype@,
            params: self.parameters@.map_values(|p: (ByteString, ByteString)| (p.0@, p.1@)),
        }
    }
}

/// The parameter list as a map; a later occurrence of a key wins.
pub open spec fn params_map(ps: Seq<(Seq<u8>, Seq<u8>)>) -> Map<Seq<u8>, Seq<u8>>
    decreases ps.len(),
{
    if ps.len() == 0 {
        Map::empty()
    } else {
        params_map(ps.drop_last()).insert(ps.last().0, ps.last().1)
    }
}

proof fn lemma_params_map_skip(ps: Seq<(Seq<u8>, Seq<u8>)>, k: Seq<u8>, i: int)
    requires
        0 <= i <= ps.len(),
        forall|j: int| i <= j < ps.len() ==> #[trigger] ps[j].0 != k,
    ensures
        params_map(ps).contains_key(k) <==> params_map(ps.take(i)).contains_key(k),
        params_map(ps).contains_key(k) ==> params_map(ps)[k] == params_map(ps.take(i))[k],
    decreases ps.len() - i,
{
    if i == ps.len() {
        assert(ps.take(i) =~= ps);
    } else {
        lemma_params_map_skip(ps, k, i + 1);
        assert(ps.take(i + 1).drop_last() =~= ps.take(i));
        assert(ps.take(i + 1).last() == ps[i]);
    }
}

impl ContentType {
    /// Looks a parameter up by its (lowercase) attribute name; the last
    /// occurrence wins.
    pub fn get_parameter(&self, key: &[u8]) -> (r: Option<ByteString>)
        ensures
            r is Some <==> params_map(self@.params).contains_key(key@),
            r matches Some(v) ==> v@ == params_map(self@.params)[key@],
    {
        let ghost ps = self@.params;
        let n = self.parameters.len();
        let mut i = n;
        while i > 0
            invariant
                n == self.parameters@.len(),
                ps == self@.params,
                i <= n,
                forall|j: int| i <= j < n ==> #[trigger] ps[j].0 != key@,
            decreases i,
        {
            i -= 1;
            if bytes_eq(self.parameters[i].0.0.as_slice(), key) {
                proof {
                    assert(ps[i as int].0 == key@);
                    lemma_params_map_skip(ps, key@, i + 1);
                    assert(ps.take(i + 1).drop_last() =~= ps.take(i as int));
                    assert(ps.take(i + 1).last() == ps[i as int]);
                    assert(params_map(ps.take(i + 1)).contains_key(key@));
                    assert(params_map(ps.take(i + 1))[key@] == ps[i as int].1);
                }
                let v = copy_range(self.parameters[i].1.0.as_slice(), 0, self.parameters[i].1.0.len());
                assert(v@ =~= ps[i as int].1);
                return Some(ByteString(v));
            }
        }
        proof {
            lemma_params_map_skip(ps, key@, 0);
            assert(ps.take(0) =~= Seq::<(Seq<u8>, Seq<u8>)>::empty());
        }
        None
    }
}

// ---------------------------------------------------------------------------
// Content-Transfer-Encoding parser
// ---------------------------------------------------------------------------

pub open spec fn lit_7bit() -> Seq<u8> {
    seq![55u8, 98u8, 105u8, 116u8]
}

pub open spec fn lit_8bit() -> Seq<u8> {
    seq![56u8, 98u8, 105u8, 116u8]
}

pub open spec fn lit_binary() -> Seq<u8> {
    seq![98u8, 105u8, 110u8, 97u8, 114u8, 121u8]
}

pub open spec fn lit_base64() -> Seq<u8> {
    seq![98u8, 97u8, 115u8, 101u8, 54u8, 52u8]
}

pub open spec fn lit_quoted_printable() -> Seq<u8> {
    seq![
        113u8, 117u8, 111u8, 116u8, 101u8, 100u8, 45u8, 112u8, 114u8, 105u8, 110u8, 116u8, 97u8,
        98u8, 108u8, 101u8,
    ]
}

/// A Content-Transfer-Encoding value: optional CFWS, one of the five
/// case-insensitive encoding names, optional CFWS.
pub open spec fn cte_parse(s: Seq<u8>, pos: int, end: int) -> Option<
    (int, ContentTransferEncoding),
> {
    if 0 <= pos && pos <= end && end <= s.len() {
        let p1 = opt_cfws(s, pos, end);
        if match_ci(s, p1, end, lit_7bit()) {
            Some((opt_cfws(s, p1 + 4, end), ContentTransferEncoding::SevenBit))
        } else if match_ci(s, p1, end, lit_8bit()) {
            Some((opt_cfws(s, p1 + 4, end), ContentTransferEncoding::EightBit))
        } else if match_ci(s, p1, end, lit_binary()) {
            Some((opt_cfws(s, p1 + 6, end), ContentTransferEncoding::Binary))
        } else if match_ci(s, p1, end, lit_base64()) {
            Some((opt_cfws(s, p1 + 6, end), ContentTransferEncoding::Base64))
        } else if match_ci(s, p1, end, lit_quoted_printable()) {
            Some((opt_cfws(s, p1 + 16, end), ContentTransferEncoding::QuotedPrintable))
        } else {
            None
        }
    } else {
        None
    }
}

/// Parses a Content-Transfer-Encoding value.
pub fn content_transfer_encoding(s: &[u8], pos: usize) -> (r: Option<
    (usize, ContentTransferEncoding),
>)
    requires
        pos <= s@.len(),
    ensures
        (match r {
            Some((e, c)) => Some((e as int, c)),
            None => None,
        }) == cte_parse(s@, pos as int, s@.len() as int),
{
    let end = s.len();
    proof {
        lemma_cfws_bounds(s@, pos as int, end as int);
    }
    let p1 = opt_cfws_at(s, pos, end);
    proof {
        lemma_cfws_bounds(s@, p1 as int, end as int);
    }
    let pat_7bit: [u8; 4] = [55, 98, 105, 116];
    let pat_8bit: [u8; 4] = [56, 98, 105, 116];
    let pat_binary: [u8; 6] = [98, 105, 110, 97, 114, 121];
    let pat_base64: [u8; 6] = [98, 97, 115, 101, 54, 52];
    let pat_qp: [u8; 16] = [113, 117, 111, 116, 101, 100, 45, 112, 114, 105, 110, 116, 97, 98, 108, 101];
    assert(pat_7bit@ =~= lit_7bit());
    assert(pat_8bit@ =~= lit_8bit());
    assert(pat_binary@ =~= lit_binary());
    assert(pat_base64@ =~= lit_base64());
    assert(pat_qp@ =~= lit_quoted_printable());
    if match_ci_at(s, p1, end, pat_7bit.as_slice()) {
        Some((opt_cfws_at(s, p1 + 4, end), ContentTransferEncoding::SevenBit))
    } else if match_ci_at(s, p1, end, pat_8bit.as_slice()) {
        Some((opt_cfws_at(s, p1 + 4, end), ContentTransferEncoding::EightBit))
    } else if match_ci_at(s, p1, end, pat_binary.as_slice()) {
        Some((opt_cfws_at(s, p1 + 6, end), ContentTransferEncoding::Binary))
    } else if match_ci_at(s, p1, end, pat_base64.as_slice()) {
        Some((opt_cfws_at(s, p1 + 6, end), ContentTransferEncoding::Base64))
    } else if match_ci_at(s, p1, end, pat_qp.as_slice()) {
        Some((opt_cfws_at(s, p1 + 16, end), ContentTransferEncoding::QuotedPrintable))
    } else {
        None
    }
}

// ---------------------------------------------------------------------------
// Content-Type parser
// ---------------------------------------------------------------------------

/// One `attribute = value` parameter. The value is a token or a quoted
/// string; the attribute is returned as written.
pub open spec fn param_parse(s: Seq<u8>, pos: int, end: int) -> Option<(int, Seq<u8>, Seq<u8>)> {
    if 0 <= pos && pos <= end && end <= s.len() {
        let e1 = run_end(s, pos, end, PredKind::TokenCh);
        if pos < e1 {
            let q = opt_cfws(s, e1, end);
            if q < end && s[q] == 61 {
                let q2 = opt_cfws(s, q + 1, end);
                let e2 = run_end(s, q2, end, PredKind::TokenCh);
                if q2 < e2 {
                    Some((e2, s.subrange(pos, e1), s.subrange(q2, e2)))
                } else {
                    match quoted_string_end(s, q2, end) {
                        Some(p) => Some((p.0, s.subrange(pos, e1), p.1)),
                        None => None,
                    }
                }
            } else {
                None
            }
        } else {
            None
        }
    } else {
        None
    }
}

pub proof fn lemma_param_bounds(s: Seq<u8>, pos: int, end: int)
    requires
        0 <= pos <= end <= s.len(),
    ensures
        param_parse(s, pos, end) matches Some(p) ==> pos < p.0 <= end,
{
    lemma_run_end(s, pos, end, PredKind::TokenCh);
    let e1 = run_end(s, pos, end, PredKind::TokenCh);
    if pos < e1 {
        lemma_cfws_bounds(s, e1, end);
        let q = opt_cfws(s, e1, end);
        if q < end && s[q] == 61 {
            lemma_cfws_bounds(s, q + 1, end);
            let q2 = opt_cfws(s, q + 1, end);
            lemma_run_end(s, q2, end, PredKind::TokenCh);
            lemma_quoted_string_bounds(s, q2, end);
        }
    }
}

fn param_at(s: &[u8], pos: usize, end: usize) -> (r: Option<(usize, Vec<u8>, Vec<u8>)>)
    requires
        pos <= end <= s@.len(),
    ensures
        (match r {
            Some((e, ref k, ref v)) => Some((e as int, k@, v@)),
            None => None,
        }) == param_parse(s@, pos as int, end as int),
        r matches Some(p) ==> pos < p.0 <= end,
{
    proof {
        lemma_param_bounds(s@, pos as int, end as int);
    }
    let e1 = run_pred(s, pos, end, PredKind::TokenCh);
    if pos < e1 {
        let q = opt_cfws_at(s, e1, end);
        if q < end && s[q] == 61 {
            let q2 = opt_cfws_at(s, q + 1, end);
            let e2 = run_pred(s, q2, end, PredKind::TokenCh);
            if q2 < e2 {
                let k = copy_range(s, pos, e1);
                let v = copy_range(s, q2, e2);
                Some((e2, k, v))
            } else {
                match quoted_string_at(s, q2, end) {
                    Some((e, v)) => {
                        let k = copy_range(s, pos, e1);
                        Some((e, k, v))
                    },
                    None => None,
                }
            }
        } else {
            None
        }
    } else {
        None
    }
}

/// The parameter section: `(";" parameter)*`, greedily, attribute names
/// lowercased. Returns where the last parameter ended and the parameters in
/// order.
pub open spec fn ct_params(s: Seq<u8>, pos: int, end: int) -> (int, Seq<(Seq<u8>, Seq<u8>)>)
    decreases end - pos,
{
    if 0 <= pos && pos <= end && end <= s.len() {
        let q1 = opt_cfws(s, pos, end);
        if pos <= q1 && q1 < end && s[q1] == 59 {
            let q2 = opt_cfws(s, q1 + 1, end);
            match param_parse(s, q2, end) {
                Some(p) => if pos < p.0 && p.0 <= end {
                    let r = ct_params(s, p.0, end);
                    (r.0, seq![(lower_seq(p.1), p.2)] + r.1)
                } else {
                    (pos, Seq::empty())
                },
                None => (pos, Seq::empty()),
            }
        } else {
            (pos, Seq::empty())
        }
    } else {
        (pos, Seq::empty())
    }
}

pub proof fn lemma_ct_params_bounds(s: Seq<u8>, pos: int, end: int)
    requires
        0 <= pos <= end <= s.len(),
    ensures
        pos <= ct_params(s, pos, end).0 <= end,
    decreases end - pos,
{
    lemma_cfws_bounds(s, pos, end);
    let q1 = opt_cfws(s, pos, end);
    if q1 < end && s[q1] == 59 {
        lemma_cfws_bounds(s, q1 + 1, end);
        let q2 = opt_cfws(s, q1 + 1, end);
        lemma_param_bounds(s, q2, end);
        match param_parse(s, q2, end) {
            Some(p) => {
                if pos < p.0 && p.0 <= end {
                    lemma_ct_params_bounds(s, p.0, end);
                }
            },
            None => {},
        }
    }
}

fn ct_params_at(s: &[u8], pos: usize, end: usize) -> (r: (usize, Vec<(ByteString, ByteString)>))
    requires
        pos <= end <= s@.len(),
    ensures
        r.0 as int == ct_params(s@, pos as int, end as int).0,
        r.1@.map_values(|p: (ByteString, ByteString)| (p.0@, p.1@)) == ct_params(
            s@,
            pos as int,
            end as int,
        ).1,
        pos <= r.0 <= end,
    decreases end - pos,
{
    proof {
        lemma_cfws_bounds(s@, pos as int, end as int);
        lemma_ct_params_bounds(s@, pos as int, end as int);
    }
    let q1 = opt_cfws_at(s, pos, end);
    if q1 < end && s[q1] == 59 {
        let q2 = opt_cfws_at(s, q1 + 1, end);
        proof {
            lemma_param_bounds(s@, q2 as int, end as int);
        }
        match param_at(s, q2, end) {
            Some((e, k, v)) => {
                let (e2, mut rest) = ct_params_at(s, e, end);
                let kl = to_lower_vec(k.as_slice());
                let mut out: Vec<(ByteString, ByteString)> = Vec::new();
                out.push((ByteString(kl), ByteString(v)));
                out.append(&mut rest);
                assert(out@.map_values(|p: (ByteString, ByteString)| (p.0@, p.1@)) =~= ct_params(
                    s@,
                    pos as int,
                    end as int,
                ).1);
                (e2, out)
            },
            None => (pos, Vec::new()),
        }
    } else {
        (pos, Vec::new())
    }
}

/// A Content-Type value: `type "/" subtype (";" parameter)* [";"] [CFWS]`,
/// CFWS tolerated between the tokens.
pub open spec fn content_type_parse(s: Seq<u8>, pos: int, end: int) -> Option<
    (int, AbsContentType),
> {
    if 0 <= pos && pos <= end && end <= s.len() {
        let p1 = opt_cfws(s, pos, end);
        let e1 = run_end(s, p1, end, PredKind::ContentTypeCh);
        if p1 < e1 {
            let p2 = opt_cfws(s, e1, end);
            if p2 < end && s[p2] == 47 {
                let p3 = opt_cfws(s, p2 + 1, end);
                let e2 = run_end(s, p3, end, PredKind::ContentTypeCh);
                if p3 < e2 {
                    let pr = ct_params(s, e2, end);
                    let t1: int = if pr.0 < end && s[pr.0] == 59 {
                        pr.0 + 1
                    } else {
                        pr.0
                    };
                    Some(
                        (
                            opt_cfws(s, t1, end),
                            AbsContentType {
                                ctype: s.subrange(p1, e1),
                                subtype: s.subrange(p3, e2),
                                params: pr.1,
                            },
                        ),
                    )
                } else {
                    None
                }
            } else {
                None
            }
        } else {
            None
        }
    } else {
        None
    }
}

/// Parses a Content-Type value.
pub fn content_type(s: &[u8], pos: usize) -> (r: Option<(usize, ContentType)>)
    requires
        pos <= s@.len(),
    ensures
        (match r {
            Some((e, ref ct)) => Some((e as int, ct@)),
            None => None,
        }) == content_type_parse(s@, pos as int, s@.len() as int),
{
    let end = s.len();
    proof {
        lemma_cfws_bounds(s@, pos as int, end as int);
    }
    let p1 = opt_cfws_at(s, pos, end);
    let e1 = run_pred(s, p1, end, PredKind::ContentTypeCh);
    if p1 < e1 {
        let p2 = opt_cfws_at(s, e1, end);
        if p2 < end && s[p2] == 47 {
            let p3 = opt_cfws_at(s, p2 + 1, end);
            let e2 = run_pred(s, p3, end, PredKind::ContentTypeCh);
            if p3 < e2 {
                proof {
                    lemma_ct_params_bounds(s@, e2 as int, end as int);
                }
                let (t0, params) = ct_params_at(s, e2, end);
                let t1 = if t0 < end && s[t0] == 59 {
                    t0 + 1
                } else {
                    t0
                };
                let t2 = opt_cfws_at(s, t1, end);
                let ct = ContentType {
                    ctype: ByteString(copy_range(s, p1, e1)),
                    subtype: ByteString(copy_range(s, p3, e2)),
                    parameters: params,
                };
                Some((t2, ct))
            } else {
                None
            }
        } else {
            None
        }
    } else {
        None
    }
}

} // verus!
