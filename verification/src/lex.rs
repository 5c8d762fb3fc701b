//! Lexical layer: byte predicates and the RFC 5322 lexical productions —
//! folding whitespace, comments, atoms, dot-atoms, quoted strings, phrases
//! and unstructured text.
//!
//! Every production has a specification-level mirror, a recursive `spec fn`
//! over `(s, pos, end)` that returns the position after the match (and the
//! semantic value where there is one), or `None` on a mismatch. The
//! executable parsers are proved to return exactly what the mirrors say.

use vstd::prelude::*;

verus! {

// ---------------------------------------------------------------------------
// Byte predicates
// ---------------------------------------------------------------------------

pub open spec fn spec_is_wsp(b: u8) -> bool {
    b == 32 || b == 9
}

/// Space or horizontal tab.
#[verifier::when_used_as_spec(spec_is_wsp)]
pub fn is_wsp(ch: u8) -> (r: bool)
    ensures
        r == spec_is_wsp(ch),
{
    ch == 32 || ch == 9
}

pub open spec fn spec_is_vchar(b: u8) -> bool {
    0x21 <= b && b <= 0x7e
}

/// Visible (printing) ASCII.
#[verifier::when_used_as_spec(spec_is_vchar)]
pub fn is_vchar(ch: u8) -> (r: bool)
    ensures
        r == spec_is_vchar(ch),
{
    0x21 <= ch && ch <= 0x7e
}

pub open spec fn spec_is_quotable(b: u8) -> bool {
    spec_is_vchar(b) || spec_is_wsp(b)
}

/// A byte that may follow a backslash in a quoted-pair.
#[verifier::when_used_as_spec(spec_is_quotable)]
pub fn is_quotable(ch: u8) -> (r: bool)
    ensures
        r == spec_is_quotable(ch),
{
    is_vchar(ch) || is_wsp(ch)
}

pub open spec fn spec_is_ctext(b: u8) -> bool {
    (33 <= b && b <= 39) || (42 <= b && b <= 91) || (93 <= b && b <= 126)
}

/// Comment text: printing ASCII except `(`, `)` and `\`.
#[verifier::when_used_as_spec(spec_is_ctext)]
pub fn is_ctext(ch: u8) -> (r: bool)
    ensures
        r == spec_is_ctext(ch),
{
    (33 <= ch && ch <= 39) || (42 <= ch && ch <= 91) || (93 <= ch && ch <= 126)
}

pub open spec fn spec_is_atext(b: u8) -> bool {
    (48 <= b && b <= 57) || (65 <= b && b <= 90) || (97 <= b && b <= 122) || b == 33 || (35 <= b
        && b <= 39) || b == 42 || b == 43 || b == 45 || b == 47 || b == 61 || b == 63 || (94 <= b
        && b <= 96) || (123 <= b && b <= 126)
}

/// Atom text: alphanumeric or one of ``!#$%&'*+-/=?^_`{|}~``.
#[verifier::when_used_as_spec(spec_is_atext)]
pub fn is_atext(ch: u8) -> (r: bool)
    ensures
        r == spec_is_atext(ch),
{
    (48 <= ch && ch <= 57) || (65 <= ch && ch <= 90) || (97 <= ch && ch <= 122) || ch == 33 || (35
        <= ch && ch <= 39) || ch == 42 || ch == 43 || ch == 45 || ch == 47 || ch == 61 || ch == 63
        || (94 <= ch && ch <= 96) || (123 <= ch && ch <= 126)
}

pub open spec fn spec_is_special(b: u8) -> bool {
    b == 40 || b == 41 || b == 60 || b == 62 || b == 91 || b == 93 || b == 58 || b == 59 || b == 64
        || b == 92 || b == 44 || b == 46 || b == 34
}

/// One of `()<>[]:;@\,."`.
#[verifier::when_used_as_spec(spec_is_special)]
pub fn is_special(ch: u8) -> (r: bool)
    ensures
        r == spec_is_special(ch),
{
    ch == 40 || ch == 41 || ch == 60 || ch == 62 || ch == 91 || ch == 93 || ch == 58 || ch == 59
        || ch == 64 || ch == 92 || ch == 44 || ch == 46 || ch == 34
}

pub open spec fn spec_is_qtext(b: u8) -> bool {
    b == 33 || (35 <= b && b <= 91) || (93 <= b && b <= 126)
}

/// Quoted-string text: printing ASCII except `"` and `\`.
#[verifier::when_used_as_spec(spec_is_qtext)]
pub fn is_qtext(ch: u8) -> (r: bool)
    ensures
        r == spec_is_qtext(ch),
{
    ch == 33 || (35 <= ch && ch <= 91) || (93 <= ch && ch <= 126)
}

pub open spec fn spec_is_non_crlf(b: u8) -> bool {
    b != 13 && b != 10
}

/// Any byte other than CR or LF.
#[verifier::when_used_as_spec(spec_is_non_crlf)]
pub fn is_non_crlf(ch: u8) -> (r: bool)
    ensures
        r == spec_is_non_crlf(ch),
{
    ch != 13 && ch != 10
}

pub open spec fn spec_is_ftext(b: u8) -> bool {
    33 <= b && b <= 126 && b != 58
}

/// Header field-name text: printing ASCII except the colon.
#[verifier::when_used_as_spec(spec_is_ftext)]
pub fn is_ftext(ch: u8) -> (r: bool)
    ensures
        r == spec_is_ftext(ch),
{
    33 <= ch && ch <= 126 && ch != 58
}

pub open spec fn spec_is_digit(b: u8) -> bool {
    48 <= b && b <= 57
}

/// ASCII decimal digit.
#[verifier::when_used_as_spec(spec_is_digit)]
pub fn is_digit(ch: u8) -> (r: bool)
    ensures
        r == spec_is_digit(ch),
{
    48 <= ch && ch <= 57
}

pub open spec fn spec_is_content_type_ch(b: u8) -> bool {
    (97 <= b && b <= 122) || (65 <= b && b <= 90) || (48 <= b && b <= 57) || b == 45 || b == 46
        || b == 95
}

/// A byte accepted in a media type or subtype name.
#[verifier::when_used_as_spec(spec_is_content_type_ch)]
pub fn is_content_type_ch(ch: u8) -> (r: bool)
    ensures
        r == spec_is_content_type_ch(ch),
{
    (97 <= ch && ch <= 122) || (65 <= ch && ch <= 90) || (48 <= ch && ch <= 57) || ch == 45 || ch
        == 46 || ch == 95
}

pub open spec fn spec_is_token_ch(b: u8) -> bool {
    spec_is_vchar(b) && !(b == 40 || b == 41 || b == 60 || b == 62 || b == 64 || b == 44 || b == 59
        || b == 58 || b == 92 || b == 34 || b == 47 || b == 91 || b == 93 || b == 63 || b == 61)
}

/// A byte accepted in a Content-Type parameter token.
#[verifier::when_used_as_spec(spec_is_token_ch)]
pub fn is_token_ch(ch: u8) -> (r: bool)
    ensures
        r == spec_is_token_ch(ch),
{
    is_vchar(ch) && !(ch == 40 || ch == 41 || ch == 60 || ch == 62 || ch == 64 || ch == 44 || ch
        == 59 || ch == 58 || ch == 92 || ch == 34 || ch == 47 || ch == 91 || ch == 93 || ch == 63
        || ch == 61)
}

pub open spec fn spec_is_dtext(b: u8) -> bool {
    (33 <= b && b <= 90) || (94 <= b && b <= 126)
}

/// Domain-literal text: printing ASCII except `[`, `]` and `\`.
#[verifier::when_used_as_spec(spec_is_dtext)]
pub fn is_dtext(ch: u8) -> (r: bool)
    ensures
        r == spec_is_dtext(ch),
{
    (33 <= ch && ch <= 90) || (94 <= ch && ch <= 126)
}

// ---------------------------------------------------------------------------
// Runs of bytes matching a predicate
// ---------------------------------------------------------------------------

/// Selects one of the byte predicates, so a single scanning routine can
/// serve every kind of run.
#[derive(Clone, Copy)]
pub enum PredKind {
    Wsp,
    Atext,
    NonCrlf,
    Ftext,
    Digit,
    ContentTypeCh,
    TokenCh,
    Dtext,
}

pub open spec fn pred_holds(k: PredKind, b: u8) -> bool {
    match k {
        PredKind::Wsp => spec_is_wsp(b),
        PredKind::Atext => spec_is_atext(b),
        PredKind::NonCrlf => spec_is_non_crlf(b),
        PredKind::Ftext => spec_is_ftext(b),
        PredKind::Digit => spec_is_digit(b),
        PredKind::ContentTypeCh => spec_is_content_type_ch(b),
        PredKind::TokenCh => spec_is_token_ch(b),
        PredKind::Dtext => spec_is_dtext(b),
    }
}

fn pred_exec(k: PredKind, b: u8) -> (r: bool)
    ensures
        r == pred_holds(k, b),
{
    match k {
        PredKind::Wsp => is_wsp(b),
        PredKind::Atext => is_atext(b),
        PredKind::NonCrlf => is_non_crlf(b),
        PredKind::Ftext => is_ftext(b),
        PredKind::Digit => is_digit(b),
        PredKind::ContentTypeCh => is_content_type_ch(b),
        PredKind::TokenCh => is_token_ch(b),
        PredKind::Dtext => is_dtext(b),
    }
}

/// Position after the longest run of bytes satisfying `k`, starting at `pos`
/// and never reaching `end`.
pub open spec fn run_end(s: Seq<u8>, pos: int, end: int, k: PredKind) -> int
    decreases end - pos,
{
    if 0 <= pos && pos < end && end <= s.len() && pred_holds(k, s[pos]) {
        run_end(s, pos + 1, end, k)
    } else {
        pos
    }
}

pub proof fn lemma_run_end(s: Seq<u8>, pos: int, end: int, k: PredKind)
    requires
        0 <= pos <= end <= s.len(),
    ensures
        pos <= run_end(s, pos, end, k) <= end,
        forall|j: int| pos <= j < run_end(s, pos, end, k) ==> pred_holds(k, s[j]),
        run_end(s, pos, end, k) < end ==> !pred_holds(k, s[run_end(s, pos, end, k)]),
    decreases end - pos,
{
    if pos < end && pred_holds(k, s[pos]) {
        lemma_run_end(s, pos + 1, end, k);
    }
}

/// Scans the run of bytes satisfying `k`.
pub fn run_pred(s: &[u8], pos: usize, end: usize, k: PredKind) -> (r: usize)
    requires
        pos <= end <= s@.len(),
    ensures
        r == run_end(s@, pos as int, end as int, k),
        pos <= r <= end,
{
    proof {
        lemma_run_end(s@, pos as int, end as int, k);
    }
    let mut i = pos;
    while i < end && pred_exec(k, s[i])
        invariant
            pos <= i <= end <= s@.len(),
            run_end(s@, pos as int, end as int, k) == run_end(s@, i as int, end as int, k),
        decreases end - i,
    {
        i += 1;
    }
    i
}

// ---------------------------------------------------------------------------
// Folding whitespace
// ---------------------------------------------------------------------------

/// A CRLF pair starting at `pos`, entirely before `end`.
pub open spec fn crlf_at(s: Seq<u8>, pos: int, end: int) -> bool {
    0 <= pos && pos + 2 <= end && end <= s.len() && s[pos] == 13 && s[pos + 1] == 10
}

/// A fold: CRLF immediately followed by at least one WSP byte.
pub open spec fn fold_at(s: Seq<u8>, pos: int, end: int) -> bool {
    crlf_at(s, pos, end) && pos + 3 <= end && spec_is_wsp(s[pos + 2])
}

/// The obsolete-FWS continuation: zero or more `CRLF WSP+` groups. `pos` is
/// the end of a WSP run.
pub open spec fn obs_fws_tail(s: Seq<u8>, pos: int, end: int) -> int
    decreases end - pos,
{
    if fold_at(s, pos, end) {
        let e = run_end(s, pos + 2, end, PredKind::Wsp);
        if pos < e && e <= end {
            obs_fws_tail(s, e, end)
        } else {
            pos
        }
    } else {
        pos
    }
}

/// Folding whitespace. With a leading WSP byte this is the obsolete form
/// `WSP+ (CRLF WSP+)*`; without one, the modern form `CRLF WSP+`.
pub open spec fn fws_end(s: Seq<u8>, pos: int, end: int) -> Option<int> {
    if 0 <= pos && pos < end && end <= s.len() && spec_is_wsp(s[pos]) {
        Some(obs_fws_tail(s, run_end(s, pos, end, PredKind::Wsp), end))
    } else if fold_at(s, pos, end) {
        Some(run_end(s, pos + 2, end, PredKind::Wsp))
    } else {
        None
    }
}

/// `fws_end`, with failure meaning "consume nothing".
pub open spec fn opt_fws(s: Seq<u8>, pos: int, end: int) -> int {
    match fws_end(s, pos, end) {
        Some(e) => e,
        None => pos,
    }
}

pub proof fn lemma_obs_fws_tail(s: Seq<u8>, pos: int, end: int)
    requires
        0 <= pos <= end <= s.len(),
    ensures
        pos <= obs_fws_tail(s, pos, end) <= end,
    decreases end - pos,
{
    if fold_at(s, pos, end) {
        lemma_run_end(s, pos + 2, end, PredKind::Wsp);
        let e = run_end(s, pos + 2, end, PredKind::Wsp);
        if pos < e && e <= end {
            lemma_obs_fws_tail(s, e, end);
        }
    }
}

pub proof fn lemma_fws_bounds(s: Seq<u8>, pos: int, end: int)
    requires
        0 <= pos <= end <= s.len(),
    ensures
        fws_end(s, pos, end) matches Some(e) ==> pos < e <= end,
        pos <= opt_fws(s, pos, end) <= end,
{
    if pos < end && spec_is_wsp(s[pos]) {
        lemma_run_end(s, pos, end, PredKind::Wsp);
        lemma_obs_fws_tail(s, run_end(s, pos, end, PredKind::Wsp), end);
    } else if fold_at(s, pos, end) {
        lemma_run_end(s, pos + 2, end, PredKind::Wsp);
    }
}

/// Recognizes folding whitespace within `[pos, end)`.
pub fn fws_at(s: &[u8], pos: usize, end: usize) -> (r: Option<usize>)
    requires
        pos <= end <= s@.len(),
    ensures
        abs_opt_pos(r) == fws_end(s@, pos as int, end as int),
        r matches Some(e) ==> pos < e <= end,
{
    proof {
        lemma_fws_bounds(s@, pos as int, end as int);
    }
    if pos < end && is_wsp(s[pos]) {
        let start = run_pred(s, pos, end, PredKind::Wsp);
        let mut i = start;
        proof {
            lemma_run_end(s@, pos as int, end as int, PredKind::Wsp);
        }
        while end - i >= 3 && s[i] == 13 && s[i + 1] == 10 && is_wsp(s[i + 2])
            invariant
                pos <= end <= s@.len(),
                start <= i <= end,
                obs_fws_tail(s@, start as int, end as int) == obs_fws_tail(
                    s@,
                    i as int,
                    end as int,
                ),
            decreases end - i,
        {
            proof {
                lemma_run_end(s@, i + 2, end as int, PredKind::Wsp);
            }
            let e = run_pred(s, i + 2, end, PredKind::Wsp);
            i = e;
        }
        assert(!fold_at(s@, i as int, end as int));
        assert(obs_fws_tail(s@, i as int, end as int) == i as int);
        Some(i)
    } else if end - pos >= 3 && s[pos] == 13 && s[pos + 1] == 10 && is_wsp(s[pos + 2]) {
        let e = run_pred(s, pos + 2, end, PredKind::Wsp);
        Some(e)
    } else {
        assert(fws_end(s@, pos as int, end as int) is None);
        None
    }
}

/// Recognizes folding whitespace.
pub fn fws(s: &[u8], pos: usize) -> (r: Option<usize>)
    requires
        pos <= s@.len(),
    ensures
        abs_opt_pos(r) == fws_end(s@, pos as int, s@.len() as int),
{
    fws_at(s, pos, s.len())
}

/// The bytes of a folding-whitespace match with every CR and LF removed.
pub open spec fn strip_crlf(v: Seq<u8>) -> Seq<u8>
    decreases v.len(),
{
    if v.len() == 0 {
        Seq::empty()
    } else {
        let rest = strip_crlf(v.drop_first());
        if v[0] != 13 && v[0] != 10 {
            seq![v[0]] + rest
        } else {
            rest
        }
    }
}

/// The semantic value of folding whitespace at `pos`: its whitespace bytes,
/// with the line breaks elided.
pub open spec fn fws_semantic_value(s: Seq<u8>, pos: int, end: int) -> Option<(int, Seq<u8>)> {
    match fws_end(s, pos, end) {
        Some(e) => Some((e, strip_crlf(s.subrange(pos, e)))),
        None => None,
    }
}

/// Copies the non-CR/LF bytes of `[pos, e)` into a vector.
fn strip_crlf_exec(s: &[u8], pos: usize, e: usize) -> (r: Vec<u8>)
    requires
        pos <= e <= s@.len(),
    ensures
        r@ == strip_crlf(s@.subrange(pos as int, e as int)),
    decreases e - pos,
{
    if pos == e {
        assert(s@.subrange(pos as int, e as int) =~= Seq::<u8>::empty());
        Vec::new()
    } else {
        let mut rest = strip_crlf_exec(s, pos + 1, e);
        proof {
            assert(s@.subrange(pos as int, e as int).drop_first() =~= s@.subrange(
                pos + 1,
                e as int,
            ));
        }
        let b = s[pos];
        if b != 13 && b != 10 {
            let mut v: Vec<u8> = Vec::new();
            v.push(b);
            v.append(&mut rest);
            assert(v@ =~= seq![s@[pos as int]] + strip_crlf(s@.subrange(pos + 1, e as int)));
            v
        } else {
            rest
        }
    }
}

/// Matches folding whitespace and returns its semantic bytes: the contained
/// whitespace with the CRLFs removed.
pub fn fws_semantic(s: &[u8], pos: usize) -> (r: Option<(usize, Vec<u8>)>)
    requires
        pos <= s@.len(),
    ensures
        abs_opt_pos_bytes(&r) == fws_semantic_value(s@, pos as int, s@.len() as int),
{
    fws_semantic_at(s, pos, s.len())
}

/// `fws_semantic` within `[pos, end)`.
pub fn fws_semantic_at(s: &[u8], pos: usize, end: usize) -> (r: Option<(usize, Vec<u8>)>)
    requires
        pos <= end <= s@.len(),
    ensures
        abs_opt_pos_bytes(&r) == fws_semantic_value(s@, pos as int, end as int),
        r matches Some(p) ==> pos < p.0 <= end,
{
    match fws_at(s, pos, end) {
        Some(e) => {
            let v = strip_crlf_exec(s, pos, e);
            Some((e, v))
        },
        None => None,
    }
}

// ---------------------------------------------------------------------------
// Quoted pairs, comments, CFWS
// ---------------------------------------------------------------------------

/// A quoted pair: backslash followed by a quotable byte, yielding that byte.
pub open spec fn quoted_pair_end(s: Seq<u8>, pos: int, end: int) -> Option<(int, u8)> {
    if 0 <= pos && pos + 2 <= end && end <= s.len() && s[pos] == 92 && spec_is_quotable(
        s[pos + 1],
    ) {
        Some((pos + 2, s[pos + 1]))
    } else {
        None
    }
}

/// Matches a quoted pair and yields the quoted byte.
pub fn quoted_pair(s: &[u8], pos: usize) -> (r: Option<(usize, u8)>)
    requires
        pos <= s@.len(),
    ensures
        abs_opt_pos_byte(r) == quoted_pair_end(s@, pos as int, s@.len() as int),
{
    let end = s.len();
    if end - pos >= 2 && s[pos] == 92 && is_quotable(s[pos + 1]) {
        Some((pos + 2, s[pos + 1]))
    } else {
        None
    }
}

/// A comment: `(` then comment content, closed by `)`. Returns the position
/// after the closing parenthesis.
pub open spec fn comment_end(s: Seq<u8>, pos: int, end: int) -> Option<int>
    decreases end - pos, 0int,
{
    if 0 <= pos && pos < end && end <= s.len() && s[pos] == 40 {
        comment_tail(s, pos + 1, end)
    } else {
        None
    }
}

/// One item of comment content: a ctext byte, a quoted pair, or a nested
/// comment.
pub open spec fn ccontent_end(s: Seq<u8>, pos: int, end: int) -> Option<int>
    decreases end - pos, 1int,
{
    if 0 <= pos && pos < end && end <= s.len() && spec_is_ctext(s[pos]) {
        Some(pos + 1)
    } else if quoted_pair_end(s, pos, end) is Some {
        Some(pos + 2)
    } else {
        comment_end(s, pos, end)
    }
}

/// The inside of a comment: `(FWS? ccontent)*` then `FWS? )`.
pub open spec fn comment_tail(s: Seq<u8>, pos: int, end: int) -> Option<int>
    decreases end - pos, 2int,
{
    if 0 <= pos && pos <= end && end <= s.len() {
        let p1 = opt_fws(s, pos, end);
        if pos <= p1 && p1 <= end {
            match ccontent_end(s, p1, end) {
                Some(e) => if pos < e && e <= end {
                    comment_tail(s, e, end)
                } else {
                    None
                },
                None => if p1 < end && s[p1] == 41 {
                    Some(p1 + 1)
                } else {
                    None
                },
            }
        } else {
            None
        }
    } else {
        None
    }
}

pub proof fn lemma_comment_bounds(s: Seq<u8>, pos: int, end: int)
    requires
        0 <= pos <= end <= s.len(),
    ensures
        comment_end(s, pos, end) matches Some(e) ==> pos + 2 <= e <= end,
        ccontent_end(s, pos, end) matches Some(e) ==> pos < e <= end,
        comment_tail(s, pos, end) matches Some(e) ==> pos < e <= end,
    decreases end - pos, 3int,
{
    lemma_fws_bounds(s, pos, end);
    if pos < end && s[pos] == 40 {
        lemma_comment_tail_bounds(s, pos + 1, end);
    }
    lemma_comment_tail_bounds(s, pos, end);
}

proof fn lemma_comment_tail_bounds(s: Seq<u8>, pos: int, end: int)
    requires
        0 <= pos <= end <= s.len(),
    ensures
        comment_tail(s, pos, end) matches Some(e) ==> pos < e <= end,
    decreases end - pos, 2int,
{
    lemma_fws_bounds(s, pos, end);
    let p1 = opt_fws(s, pos, end);
    if pos <= p1 && p1 <= end {
        match ccontent_end(s, p1, end) {
            Some(e) => {
                if pos < e && e <= end {
                    lemma_comment_tail_bounds(s, e, end);
                }
            },
            None => {},
        }
    }
}

/// Matches a comment within `[pos, end)`.
pub fn comment_at(s: &[u8], pos: usize, end: usize) -> (r: Option<usize>)
    requires
        pos <= end <= s@.len(),
    ensures
        abs_opt_pos(r) == comment_end(s@, pos as int, end as int),
        r matches Some(e) ==> pos < e <= end,
    decreases end - pos, 0int,
{
    proof {
        lemma_comment_bounds(s@, pos as int, end as int);
    }
    if pos < end && s[pos] == 40 {
        comment_tail_at(s, pos + 1, end)
    } else {
        None
    }
}

fn ccontent_at(s: &[u8], pos: usize, end: usize) -> (r: Option<usize>)
    requires
        pos <= end <= s@.len(),
    ensures
        abs_opt_pos(r) == ccontent_end(s@, pos as int, end as int),
        r matches Some(e) ==> pos < e <= end,
    decreases end - pos, 1int,
{
    proof {
        lemma_comment_bounds(s@, pos as int, end as int);
    }
    if pos < end && is_ctext(s[pos]) {
        Some(pos + 1)
    } else if end - pos >= 2 && s[pos] == 92 && is_quotable(s[pos + 1]) {
        Some(pos + 2)
    } else {
        assert(quoted_pair_end(s@, pos as int, end as int) is None);
        comment_at(s, pos, end)
    }
}

fn comment_tail_at(s: &[u8], pos: usize, end: usize) -> (r: Option<usize>)
    requires
        pos <= end <= s@.len(),
    ensures
        abs_opt_pos(r) == comment_tail(s@, pos as int, end as int),
        r matches Some(e) ==> pos < e <= end,
    decreases end - pos, 2int,
{
    proof {
        lemma_comment_bounds(s@, pos as int, end as int);
        lemma_fws_bounds(s@, pos as int, end as int);
    }
    let p1 = match fws_at(s, pos, end) {
        Some(e) => e,
        None => pos,
    };
    match ccontent_at(s, p1, end) {
        Some(e) => comment_tail_at(s, e, end),
        None => {
            if p1 < end && s[p1] == 41 {
                Some(p1 + 1)
            } else {
                None
            }
        },
    }
}

/// CFWS: one or more comments with optional folding whitespace around them,
/// or bare folding whitespace.
pub open spec fn cfws_tail(s: Seq<u8>, pos: int, end: int) -> int
    decreases end - pos,
{
    if 0 <= pos && pos <= end && end <= s.len() {
        let p1 = opt_fws(s, pos, end);
        if pos <= p1 && p1 <= end {
            match comment_end(s, p1, end) {
                Some(e) => if pos < e && e <= end {
                    cfws_tail(s, e, end)
                } else {
                    p1
                },
                None => p1,
            }
        } else {
            pos
        }
    } else {
        pos
    }
}

pub open spec fn cfws_end(s: Seq<u8>, pos: int, end: int) -> Option<int> {
    if 0 <= pos && pos <= end && end <= s.len() {
        let p1 = opt_fws(s, pos, end);
        match comment_end(s, p1, end) {
            Some(e) => Some(cfws_tail(s, e, end)),
            None => fws_end(s, pos, end),
        }
    } else {
        None
    }
}

/// `cfws_end`, with failure meaning "consume nothing".
pub open spec fn opt_cfws(s: Seq<u8>, pos: int, end: int) -> int {
    match cfws_end(s, pos, end) {
        Some(e) => e,
        None => pos,
    }
}

pub proof fn lemma_cfws_tail_bounds(s: Seq<u8>, pos: int, end: int)
    requires
        0 <= pos <= end <= s.len(),
    ensures
        pos <= cfws_tail(s, pos, end) <= end,
    decreases end - pos,
{
    lemma_fws_bounds(s, pos, end);
    let p1 = opt_fws(s, pos, end);
    lemma_comment_bounds(s, p1, end);
    match comment_end(s, p1, end) {
        Some(e) => {
            if pos < e && e <= end {
                lemma_cfws_tail_bounds(s, e, end);
            }
        },
        None => {},
    }
}

pub proof fn lemma_cfws_bounds(s: Seq<u8>, pos: int, end: int)
    requires
        0 <= pos <= end <= s.len(),
    ensures
        cfws_end(s, pos, end) matches Some(e) ==> pos < e <= end,
        pos <= opt_cfws(s, pos, end) <= end,
{
    lemma_fws_bounds(s, pos, end);
    let p1 = opt_fws(s, pos, end);
    lemma_comment_bounds(s, p1, end);
    match comment_end(s, p1, end) {
        Some(e) => {
            lemma_cfws_tail_bounds(s, e, end);
        },
        None => {},
    }
}

fn cfws_tail_at(s: &[u8], pos: usize, end: usize) -> (r: usize)
    requires
        pos <= end <= s@.len(),
    ensures
        r == cfws_tail(s@, pos as int, end as int),
        pos <= r <= end,
    decreases end - pos,
{
    proof {
        lemma_fws_bounds(s@, pos as int, end as int);
        lemma_cfws_tail_bounds(s@, pos as int, end as int);
    }
    let p1 = match fws_at(s, pos, end) {
        Some(e) => e,
        None => pos,
    };
    proof {
        lemma_comment_bounds(s@, p1 as int, end as int);
    }
    match comment_at(s, p1, end) {
        Some(e) => cfws_tail_at(s, e, end),
        None => p1,
    }
}

/// Matches CFWS within `[pos, end)`.
pub fn cfws_at(s: &[u8], pos: usize, end: usize) -> (r: Option<usize>)
    requires
        pos <= end <= s@.len(),
    ensures
        abs_opt_pos(r) == cfws_end(s@, pos as int, end as int),
        r matches Some(e) ==> pos < e <= end,
{
    proof {
        lemma_fws_bounds(s@, pos as int, end as int);
        lemma_cfws_bounds(s@, pos as int, end as int);
    }
    let p1 = match fws_at(s, pos, end) {
        Some(e) => e,
        None => pos,
    };
    match comment_at(s, p1, end) {
        Some(e) => Some(cfws_tail_at(s, e, end)),
        None => fws_at(s, pos, end),
    }
}

/// Matches CFWS.
pub fn cfws(s: &[u8], pos: usize) -> (r: Option<usize>)
    requires
        pos <= s@.len(),
    ensures
        abs_opt_pos(r) == cfws_end(s@, pos as int, s@.len() as int),
{
    cfws_at(s, pos, s.len())
}

/// `cfws_at`, with failure meaning "consume nothing".
pub fn opt_cfws_at(s: &[u8], pos: usize, end: usize) -> (r: usize)
    requires
        pos <= end <= s@.len(),
    ensures
        r == opt_cfws(s@, pos as int, end as int),
        pos <= r <= end,
{
    proof {
        lemma_cfws_bounds(s@, pos as int, end as int);
    }
    match cfws_at(s, pos, end) {
        Some(e) => e,
        None => pos,
    }
}

// ---------------------------------------------------------------------------
// Atoms and dot-atoms
// ---------------------------------------------------------------------------

/// An atom: optional CFWS, one or more atext bytes, optional CFWS. The value
/// is the atext run.
pub open spec fn atom_end(s: Seq<u8>, pos: int, end: int) -> Option<(int, Seq<u8>)> {
    if 0 <= pos && pos <= end && end <= s.len() {
        let p1 = opt_cfws(s, pos, end);
        let e = run_end(s, p1, end, PredKind::Atext);
        if p1 < e {
            Some((opt_cfws(s, e, end), s.subrange(p1, e)))
        } else {
            None
        }
    } else {
        None
    }
}

pub proof fn lemma_atom_bounds(s: Seq<u8>, pos: int, end: int)
    requires
        0 <= pos <= end <= s.len(),
    ensures
        atom_end(s, pos, end) matches Some(p) ==> pos < p.0 <= end && p.1.len() > 0,
{
    lemma_cfws_bounds(s, pos, end);
    let p1 = opt_cfws(s, pos, end);
    lemma_run_end(s, p1, end, PredKind::Atext);
    let e = run_end(s, p1, end, PredKind::Atext);
    if p1 < e {
        lemma_cfws_bounds(s, e, end);
    }
}

/// Matches an atom and yields the atext run.
pub fn atom(s: &[u8], pos: usize) -> (r: Option<(usize, Vec<u8>)>)
    requires
        pos <= s@.len(),
    ensures
        abs_opt_pos_bytes(&r) == atom_end(s@, pos as int, s@.len() as int),
{
    let end = s.len();
    proof {
        lemma_cfws_bounds(s@, pos as int, end as int);
    }
    let p1 = opt_cfws_at(s, pos, end);
    let e = run_pred(s, p1, end, PredKind::Atext);
    if p1 < e {
        let p2 = opt_cfws_at(s, e, end);
        let v = crate::util::copy_range(s, p1, e);
        Some((p2, v))
    } else {
        None
    }
}

/// The continuation of dot-atom-text: `("." atext+)*`, starting at the end
/// of an atext run.
pub open spec fn dot_atom_text_tail(s: Seq<u8>, pos: int, end: int) -> int
    decreases end - pos,
{
    if 0 <= pos && pos < end && end <= s.len() && s[pos] == 46 {
        let e = run_end(s, pos + 1, end, PredKind::Atext);
        if pos + 1 < e && e <= end {
            dot_atom_text_tail(s, e, end)
        } else {
            pos
        }
    } else {
        pos
    }
}

/// Dot-atom-text: `atext+ ("." atext+)*`. Returns the position after the
/// last atext byte.
pub open spec fn dot_atom_text_end(s: Seq<u8>, pos: int, end: int) -> Option<int> {
    if 0 <= pos && pos <= end && end <= s.len() {
        let e = run_end(s, pos, end, PredKind::Atext);
        if pos < e {
            Some(dot_atom_text_tail(s, e, end))
        } else {
            None
        }
    } else {
        None
    }
}

pub proof fn lemma_dot_atom_text_tail_bounds(s: Seq<u8>, pos: int, end: int)
    requires
        0 <= pos <= end <= s.len(),
    ensures
        pos <= dot_atom_text_tail(s, pos, end) <= end,
    decreases end - pos,
{
    if pos < end && s[pos] == 46 {
        lemma_run_end(s, pos + 1, end, PredKind::Atext);
        let e = run_end(s, pos + 1, end, PredKind::Atext);
        if pos + 1 < e && e <= end {
            lemma_dot_atom_text_tail_bounds(s, e, end);
        }
    }
}

fn dot_atom_text_tail_at(s: &[u8], pos: usize, end: usize) -> (r: usize)
    requires
        pos <= end <= s@.len(),
    ensures
        r == dot_atom_text_tail(s@, pos as int, end as int),
        pos <= r <= end,
    decreases end - pos,
{
    if pos < end && s[pos] == 46 {
        let e = run_pred(s, pos + 1, end, PredKind::Atext);
        if pos + 1 < e {
            dot_atom_text_tail_at(s, e, end)
        } else {
            pos
        }
    } else {
        pos
    }
}

/// A dot-atom: optional CFWS, dot-atom-text, optional CFWS. The value is the
/// dot-atom-text, dots included.
pub open spec fn dot_atom_end(s: Seq<u8>, pos: int, end: int) -> Option<(int, Seq<u8>)> {
    if 0 <= pos && pos <= end && end <= s.len() {
        let p1 = opt_cfws(s, pos, end);
        match dot_atom_text_end(s, p1, end) {
            Some(e) => if p1 <= e && e <= end {
                Some((opt_cfws(s, e, end), s.subrange(p1, e)))
            } else {
                None
            },
            None => None,
        }
    } else {
        None
    }
}

pub proof fn lemma_dot_atom_bounds(s: Seq<u8>, pos: int, end: int)
    requires
        0 <= pos <= end <= s.len(),
    ensures
        dot_atom_end(s, pos, end) matches Some(p) ==> pos < p.0 <= end && p.1.len() > 0,
{
    lemma_cfws_bounds(s, pos, end);
    let p1 = opt_cfws(s, pos, end);
    lemma_run_end(s, p1, end, PredKind::Atext);
    let e0 = run_end(s, p1, end, PredKind::Atext);
    if p1 < e0 {
        lemma_dot_atom_text_tail_bounds(s, e0, end);
        let e = dot_atom_text_tail(s, e0, end);
        lemma_cfws_bounds(s, e, end);
    }
}

/// Matches a dot-atom and yields the dot-atom-text.
pub fn dot_atom(s: &[u8], pos: usize) -> (r: Option<(usize, Vec<u8>)>)
    requires
        pos <= s@.len(),
    ensures
        abs_opt_pos_bytes(&r) == dot_atom_end(s@, pos as int, s@.len() as int),
{
    let end = s.len();
    proof {
        lemma_cfws_bounds(s@, pos as int, end as int);
    }
    let p1 = opt_cfws_at(s, pos, end);
    let e0 = run_pred(s, p1, end, PredKind::Atext);
    if p1 < e0 {
        let e = dot_atom_text_tail_at(s, e0, end);
        let p2 = opt_cfws_at(s, e, end);
        let v = crate::util::copy_range(s, p1, e);
        Some((p2, v))
    } else {
        None
    }
}

// ---------------------------------------------------------------------------
// Quoted strings
// ---------------------------------------------------------------------------

/// The inside of a quoted string: `(FWS? qcontent)*` then `FWS? "`. The
/// value is the decoded content; folding whitespace contributes its bytes
/// with CRLFs elided, a quoted pair contributes the quoted byte.
pub open spec fn qs_tail(s: Seq<u8>, pos: int, end: int) -> Option<(int, Seq<u8>)>
    decreases end - pos,
{
    if 0 <= pos && pos <= end && end <= s.len() {
        let pf = opt_fws(s, pos, end);
        if pos <= pf && pf <= end {
            let fws_bytes: Seq<u8> = if fws_end(s, pos, end) is Some {
                strip_crlf(s.subrange(pos, pf))
            } else {
                Seq::empty()
            };
            if pf < end && spec_is_qtext(s[pf]) {
                match qs_tail(s, pf + 1, end) {
                    Some(p) => Some((p.0, fws_bytes + seq![s[pf]] + p.1)),
                    None => None,
                }
            } else {
                match quoted_pair_end(s, pf, end) {
                    Some(qp) => match qs_tail(s, pf + 2, end) {
                        Some(p) => Some((p.0, fws_bytes + seq![qp.1] + p.1)),
                        None => None,
                    },
                    None => if pf < end && s[pf] == 34 {
                        Some((pf + 1, Seq::empty()))
                    } else {
                        None
                    },
                }
            }
        } else {
            None
        }
    } else {
        None
    }
}

/// A quoted string: optional CFWS, `"`, content, `"`, optional CFWS. The
/// value is the decoded content.
pub open spec fn quoted_string_end(s: Seq<u8>, pos: int, end: int) -> Option<(int, Seq<u8>)> {
    if 0 <= pos && pos <= end && end <= s.len() {
        let p1 = opt_cfws(s, pos, end);
        if p1 < end && s[p1] == 34 {
            match qs_tail(s, p1 + 1, end) {
                Some(p) => Some((opt_cfws(s, p.0, end), p.1)),
                None => None,
            }
        } else {
            None
        }
    } else {
        None
    }
}

pub proof fn lemma_qs_tail_bounds(s: Seq<u8>, pos: int, end: int)
    requires
        0 <= pos <= end <= s.len(),
    ensures
        qs_tail(s, pos, end) matches Some(p) ==> pos < p.0 <= end,
    decreases end - pos,
{
    lemma_fws_bounds(s, pos, end);
    let pf = opt_fws(s, pos, end);
    if pf < end && spec_is_qtext(s[pf]) {
        lemma_qs_tail_bounds(s, pf + 1, end);
    } else if quoted_pair_end(s, pf, end) is Some {
        lemma_qs_tail_bounds(s, pf + 2, end);
    }
}

pub proof fn lemma_quoted_string_bounds(s: Seq<u8>, pos: int, end: int)
    requires
        0 <= pos <= end <= s.len(),
    ensures
        quoted_string_end(s, pos, end) matches Some(p) ==> pos < p.0 <= end,
{
    lemma_cfws_bounds(s, pos, end);
    let p1 = opt_cfws(s, pos, end);
    if p1 < end && s[p1] == 34 {
        lemma_qs_tail_bounds(s, p1 + 1, end);
        match qs_tail(s, p1 + 1, end) {
            Some(p) => {
                lemma_cfws_bounds(s, p.0, end);
            },
            None => {},
        }
    }
}

fn qs_tail_at(s: &[u8], pos: usize, end: usize) -> (r: Option<(usize, Vec<u8>)>)
    requires
        pos <= end <= s@.len(),
    ensures
        abs_opt_pos_bytes(&r) == qs_tail(s@, pos as int, end as int),
        r matches Some(p) ==> pos < p.0 <= end,
    decreases end - pos,
{
    proof {
        lemma_fws_bounds(s@, pos as int, end as int);
        lemma_qs_tail_bounds(s@, pos as int, end as int);
    }
    let (pf, mut fws_bytes): (usize, Vec<u8>) = match fws_semantic_at(s, pos, end) {
        Some(p) => p,
        None => (pos, Vec::new()),
    };
    if pf < end && is_qtext(s[pf]) {
        match qs_tail_at(s, pf + 1, end) {
            Some((e, mut rest)) => {
                let mut v = fws_bytes;
                v.push(s[pf]);
                v.append(&mut rest);
                assert(v@ =~= (qs_tail(s@, pos as int, end as int)->0).1);
                Some((e, v))
            },
            None => None,
        }
    } else if end - pf >= 2 && s[pf] == 92 && is_quotable(s[pf + 1]) {
        match qs_tail_at(s, pf + 2, end) {
            Some((e, mut rest)) => {
                let mut v = fws_bytes;
                v.push(s[pf + 1]);
                v.append(&mut rest);
                assert(v@ =~= (qs_tail(s@, pos as int, end as int)->0).1);
                Some((e, v))
            },
            None => None,
        }
    } else if pf < end && s[pf] == 34 {
        assert(quoted_pair_end(s@, pf as int, end as int) is None);
        Some((pf + 1, Vec::new()))
    } else {
        assert(quoted_pair_end(s@, pf as int, end as int) is None);
        None
    }
}

/// Matches a quoted string within `[pos, end)` and yields the decoded
/// content bytes.
pub fn quoted_string_at(s: &[u8], pos: usize, end: usize) -> (r: Option<(usize, Vec<u8>)>)
    requires
        pos <= end <= s@.len(),
    ensures
        abs_opt_pos_bytes(&r) == quoted_string_end(s@, pos as int, end as int),
        r matches Some(p) ==> pos < p.0 <= end,
{
    proof {
        lemma_cfws_bounds(s@, pos as int, end as int);
        lemma_quoted_string_bounds(s@, pos as int, end as int);
    }
    let p1 = opt_cfws_at(s, pos, end);
    if p1 < end && s[p1] == 34 {
        match qs_tail_at(s, p1 + 1, end) {
            Some((e, v)) => {
                let p2 = opt_cfws_at(s, e, end);
                Some((p2, v))
            },
            None => None,
        }
    } else {
        None
    }
}

/// Matches a quoted string and yields the decoded content.
pub fn quoted_string(s: &[u8], pos: usize) -> (r: Option<(usize, crate::ByteString)>)
    requires
        pos <= s@.len(),
    ensures
        (match r {
            Some((e, ref v)) => Some((e as int, v@)),
            None => None,
        }) == quoted_string_end(s@, pos as int, s@.len() as int),
{
    match quoted_string_at(s, pos, s.len()) {
        Some((e, v)) => Some((e, crate::ByteString(v))),
        None => None,
    }
}

// ---------------------------------------------------------------------------
// Words and phrases
// ---------------------------------------------------------------------------

/// A word: an atom, or else a quoted string.
pub open spec fn word_end(s: Seq<u8>, pos: int, end: int) -> Option<(int, Seq<u8>)> {
    match atom_end(s, pos, end) {
        Some(p) => Some(p),
        None => quoted_string_end(s, pos, end),
    }
}

pub proof fn lemma_word_bounds(s: Seq<u8>, pos: int, end: int)
    requires
        0 <= pos <= end <= s.len(),
    ensures
        word_end(s, pos, end) matches Some(p) ==> pos < p.0 <= end,
{
    lemma_atom_bounds(s, pos, end);
    lemma_quoted_string_bounds(s, pos, end);
}

fn word_at(s: &[u8], pos: usize, end: usize) -> (r: Option<(usize, Vec<u8>)>)
    requires
        pos <= end <= s@.len(),
    ensures
        abs_opt_pos_bytes(&r) == word_end(s@, pos as int, end as int),
        r matches Some(p) ==> pos < p.0 <= end,
{
    proof {
        lemma_word_bounds(s@, pos as int, end as int);
        lemma_atom_bounds(s@, pos as int, end as int);
    }
    let p1 = opt_cfws_at(s, pos, end);
    let e = run_pred(s, p1, end, PredKind::Atext);
    if p1 < e {
        let p2 = opt_cfws_at(s, e, end);
        let v = crate::util::copy_range(s, p1, e);
        Some((p2, v))
    } else {
        quoted_string_at(s, pos, end)
    }
}

/// The continuation of an obsolete phrase: words, literal dots, and CFWS in
/// any order, greedily.
pub open spec fn phrase_tail(s: Seq<u8>, pos: int, end: int) -> (int, Seq<Seq<u8>>)
    decreases end - pos,
{
    if 0 <= pos && pos <= end && end <= s.len() {
        match word_end(s, pos, end) {
            Some(p) => if pos < p.0 && p.0 <= end {
                let q = phrase_tail(s, p.0, end);
                (q.0, seq![p.1] + q.1)
            } else {
                (pos, Seq::empty())
            },
            None => if pos < end && s[pos] == 46 {
                let q = phrase_tail(s, pos + 1, end);
                (q.0, seq![seq![46u8]] + q.1)
            } else {
                match cfws_end(s, pos, end) {
                    Some(e) => if pos < e && e <= end {
                        phrase_tail(s, e, end)
                    } else {
                        (pos, Seq::empty())
                    },
                    None => (pos, Seq::empty()),
                }
            },
        }
    } else {
        (pos, Seq::empty())
    }
}

/// A phrase: one word, then the obsolete-phrase continuation. The value is
/// the list of word values, a literal dot standing for itself.
pub open spec fn phrase_end(s: Seq<u8>, pos: int, end: int) -> Option<(int, Seq<Seq<u8>>)> {
    match word_end(s, pos, end) {
        Some(p) => if pos < p.0 && p.0 <= end {
            let q = phrase_tail(s, p.0, end);
            Some((q.0, seq![p.1] + q.1))
        } else {
            None
        },
        None => None,
    }
}

pub proof fn lemma_phrase_tail_bounds(s: Seq<u8>, pos: int, end: int)
    requires
        0 <= pos <= end <= s.len(),
    ensures
        pos <= phrase_tail(s, pos, end).0 <= end,
    decreases end - pos,
{
    lemma_word_bounds(s, pos, end);
    lemma_cfws_bounds(s, pos, end);
    match word_end(s, pos, end) {
        Some(p) => {
            if pos < p.0 && p.0 <= end {
                lemma_phrase_tail_bounds(s, p.0, end);
            }
        },
        None => {
            if pos < end && s[pos] == 46 {
                lemma_phrase_tail_bounds(s, pos + 1, end);
            } else {
                match cfws_end(s, pos, end) {
                    Some(e) => {
                        if pos < e && e <= end {
                            lemma_phrase_tail_bounds(s, e, end);
                        }
                    },
                    None => {},
                }
            }
        },
    }
}

pub proof fn lemma_phrase_bounds(s: Seq<u8>, pos: int, end: int)
    requires
        0 <= pos <= end <= s.len(),
    ensures
        phrase_end(s, pos, end) matches Some(p) ==> pos < p.0 <= end,
{
    lemma_word_bounds(s, pos, end);
    match word_end(s, pos, end) {
        Some(p) => {
            if pos < p.0 && p.0 <= end {
                lemma_phrase_tail_bounds(s, p.0, end);
            }
        },
        None => {},
    }
}

pub open spec fn abs_words(v: Seq<crate::ByteString>) -> Seq<Seq<u8>> {
    v.map_values(|b: crate::ByteString| b@)
}

fn phrase_tail_at(s: &[u8], pos: usize, end: usize) -> (r: (usize, Vec<crate::ByteString>))
    requires
        pos <= end <= s@.len(),
    ensures
        r.0 as int == phrase_tail(s@, pos as int, end as int).0,
        abs_words(r.1@) == phrase_tail(s@, pos as int, end as int).1,
        pos <= r.0 <= end,
    decreases end - pos,
{
    proof {
        lemma_word_bounds(s@, pos as int, end as int);
        lemma_cfws_bounds(s@, pos as int, end as int);
        lemma_phrase_tail_bounds(s@, pos as int, end as int);
    }
    match word_at(s, pos, end) {
        Some((e, w)) => {
            let (e2, mut ws) = phrase_tail_at(s, e, end);
            let mut v: Vec<crate::ByteString> = Vec::new();
            v.push(crate::ByteString(w));
            v.append(&mut ws);
            assert(abs_words(v@) =~= phrase_tail(s@, pos as int, end as int).1);
            (e2, v)
        },
        None => {
            if pos < end && s[pos] == 46 {
                let (e2, mut ws) = phrase_tail_at(s, pos + 1, end);
                let mut d: Vec<u8> = Vec::new();
                d.push(46);
                let mut v: Vec<crate::ByteString> = Vec::new();
                v.push(crate::ByteString(d));
                v.append(&mut ws);
                assert(abs_words(v@) =~= phrase_tail(s@, pos as int, end as int).1);
                (e2, v)
            } else {
                match cfws_at(s, pos, end) {
                    Some(e) => phrase_tail_at(s, e, end),
                    None => (pos, Vec::new()),
                }
            }
        },
    }
}

/// Matches a phrase within `[pos, end)` and yields its words.
pub fn phrase_at(s: &[u8], pos: usize, end: usize) -> (r: Option<
    (usize, Vec<crate::ByteString>),
>)
    requires
        pos <= end <= s@.len(),
    ensures
        (match r {
            Some((e, ref v)) => Some((e as int, abs_words(v@))),
            None => None,
        }) == phrase_end(s@, pos as int, end as int),
        r matches Some(p) ==> pos < p.0 <= end,
{
    proof {
        lemma_word_bounds(s@, pos as int, end as int);
        lemma_phrase_tail_bounds(s@, pos as int, end as int);
    }
    match word_at(s, pos, end) {
        Some((e, w)) => {
            proof {
                lemma_phrase_tail_bounds(s@, e as int, end as int);
            }
            let (e2, mut ws) = phrase_tail_at(s, e, end);
            let mut v: Vec<crate::ByteString> = Vec::new();
            v.push(crate::ByteString(w));
            v.append(&mut ws);
            assert(abs_words(v@) =~= (phrase_end(s@, pos as int, end as int)->0).1);
            Some((e2, v))
        },
        None => None,
    }
}

/// Matches a phrase and yields its words.
pub fn phrase(s: &[u8], pos: usize) -> (r: Option<(usize, Vec<crate::ByteString>)>)
    requires
        pos <= s@.len(),
    ensures
        (match r {
            Some((e, ref v)) => Some((e as int, abs_words(v@))),
            None => None,
        }) == phrase_end(s@, pos as int, s@.len() as int),
{
    phrase_at(s, pos, s.len())
}

// ---------------------------------------------------------------------------
// Unstructured text
// ---------------------------------------------------------------------------

/// Unstructured text: `(FWS? VCHAR)*` where a matched FWS contributes one
/// space, followed by trailing WSP verbatim. Never fails.
pub open spec fn unstructured_tail(s: Seq<u8>, pos: int, end: int) -> (int, Seq<u8>)
    decreases end - pos,
{
    if 0 <= pos && pos <= end && end <= s.len() {
        let pf = opt_fws(s, pos, end);
        if pos <= pf && pf < end && spec_is_vchar(s[pf]) {
            let sp: Seq<u8> = if fws_end(s, pos, end) is Some {
                seq![32u8]
            } else {
                Seq::empty()
            };
            let q = unstructured_tail(s, pf + 1, end);
            (q.0, sp + seq![s[pf]] + q.1)
        } else {
            let e = run_end(s, pos, end, PredKind::Wsp);
            (e, s.subrange(pos, e))
        }
    } else {
        (pos, Seq::empty())
    }
}

pub proof fn lemma_unstructured_bounds(s: Seq<u8>, pos: int, end: int)
    requires
        0 <= pos <= end <= s.len(),
    ensures
        pos <= unstructured_tail(s, pos, end).0 <= end,
    decreases end - pos,
{
    lemma_fws_bounds(s, pos, end);
    lemma_run_end(s, pos, end, PredKind::Wsp);
    let pf = opt_fws(s, pos, end);
    if pf < end && spec_is_vchar(s[pf]) {
        lemma_unstructured_bounds(s, pf + 1, end);
    }
}

/// Matches unstructured text within `[pos, end)`.
pub fn unstructured_at(s: &[u8], pos: usize, end: usize) -> (r: (usize, Vec<u8>))
    requires
        pos <= end <= s@.len(),
    ensures
        r.0 as int == unstructured_tail(s@, pos as int, end as int).0,
        r.1@ == unstructured_tail(s@, pos as int, end as int).1,
        pos <= r.0 <= end,
    decreases end - pos,
{
    proof {
        lemma_fws_bounds(s@, pos as int, end as int);
        lemma_unstructured_bounds(s@, pos as int, end as int);
    }
    let pf = match fws_at(s, pos, end) {
        Some(e) => e,
        None => pos,
    };
    if pf < end && is_vchar(s[pf]) {
        let matched_fws = pf != pos || {
            let f = fws_at(s, pos, end);
            f.is_some()
        };
        let (e, mut rest) = unstructured_at(s, pf + 1, end);
        let mut v: Vec<u8> = Vec::new();
        if matched_fws {
            v.push(32);
        }
        v.push(s[pf]);
        v.append(&mut rest);
        assert(v@ =~= unstructured_tail(s@, pos as int, end as int).1);
        (e, v)
    } else {
        let e = run_pred(s, pos, end, PredKind::Wsp);
        let v = crate::util::copy_range(s, pos, e);
        (e, v)
    }
}

/// Matches unstructured text: the whole tail of a header body.
pub fn unstructured(s: &[u8], pos: usize) -> (r: (usize, crate::ByteString))
    requires
        pos <= s@.len(),
    ensures
        r.0 as int == unstructured_tail(s@, pos as int, s@.len() as int).0,
        r.1@ == unstructured_tail(s@, pos as int, s@.len() as int).1,
{
    let (e, v) = unstructured_at(s, pos, s.len());
    (e, crate::ByteString(v))
}

// ---------------------------------------------------------------------------
// Abstraction helpers for contracts
// ---------------------------------------------------------------------------

pub open spec fn abs_opt_pos(r: Option<usize>) -> Option<int> {
    match r {
        Some(e) => Some(e as int),
        None => None,
    }
}

pub open spec fn abs_opt_pos_bytes(r: &Option<(usize, Vec<u8>)>) -> Option<(int, Seq<u8>)> {
    match r {
        Some(p) => Some((p.0 as int, p.1@)),
        None => None,
    }
}

pub open spec fn abs_opt_pos_byte(r: Option<(usize, u8)>) -> Option<(int, u8)> {
    match r {
        Some(p) => Some((p.0 as int, p.1)),
        None => None,
    }
}

} // verus!
