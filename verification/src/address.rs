//! Addresses: addr-spec, mailbox, group, and the comma-separated mailbox
//! and address lists.

use vstd::prelude::*;
use crate::lex::{
    opt_cfws, opt_fws, fws_end, dot_atom_end, quoted_string_end, phrase_end, strip_crlf,
    spec_is_dtext, is_dtext, abs_words, opt_cfws_at, dot_atom, fws_semantic_at, phrase_at,
    quoted_string_at, lemma_cfws_bounds, lemma_fws_bounds, lemma_dot_atom_bounds,
    lemma_quoted_string_bounds, lemma_phrase_tail_bounds, lemma_word_bounds,
};
use crate::ByteString;

verus! {

/// The local part of an addr-spec: a dot-atom or a quoted string.
#[derive(Debug)]
pub enum LocalPart {
    DotAtom(ByteString),
    QuotedString(ByteString),
}

/// The domain of an addr-spec: a dot-atom or a domain literal (the bytes
/// between the brackets).
#[derive(Debug)]
pub enum DomainPart {
    DotAtom(ByteString),
    Literal(ByteString),
}

/// `local-part "@" domain`.
#[derive(Debug)]
pub struct AddrSpec {
    pub local: LocalPart,
    pub domain: DomainPart,
}

/// A single recipient: an optional display-name phrase and an addr-spec.
#[derive(Debug)]
pub struct Mailbox {
    pub display_name: Option<Vec<ByteString>>,
    pub addr_spec: AddrSpec,
}

/// A mailbox, or a named group of mailboxes.
#[derive(Debug)]
pub enum Address {
    Mailbox(Mailbox),
    Group { display_name: Vec<ByteString>, mailboxes: Vec<Mailbox> },
}

/// Mathematical images of the address types.
pub enum AbsLocalPart {
    DotAtom(Seq<u8>),
    QuotedString(Seq<u8>),
}

pub enum AbsDomainPart {
    DotAtom(Seq<u8>),
    Literal(Seq<u8>),
}

pub struct AbsAddrSpec {
    pub local: AbsLocalPart,
    pub domain: AbsDomainPart,
}

pub struct AbsMailbox {
    pub display_name: Option<Seq<Seq<u8>>>,
    pub addr_spec: AbsAddrSpec,
}

pub enum AbsAddress {
    Mailbox(AbsMailbox),
    Group { display_name: Seq<Seq<u8>>, mailboxes: Seq<AbsMailbox> },
}

impl View for LocalPart {
    type V = AbsLocalPart;

    open spec fn view(&self) -> AbsLocalPart {
        match *self {
            LocalPart::DotAtom(ref b) => AbsLocalPart::DotAtom(b@),
            LocalPart::QuotedString(ref b) => AbsLocalPart::QuotedString(b@),
        }
    }
}

impl View for DomainPart {
    type V = AbsDomainPart;

    open spec fn view(&self) -> AbsDomainPart {
        match *self {
            DomainPart::DotAtom(ref b) => AbsDomainPart::DotAtom(b@),
            DomainPart::Literal(ref b) => AbsDomainPart::Literal(b@),
        }
    }
}

impl View for AddrSpec {
    type V = AbsAddrSpec;

    open spec fn view(&self) -> AbsAddrSpec {
        AbsAddrSpec { local: self.local@, domain: self.domain@ }
    }
}

impl View for Mailbox {
    type V = AbsMailbox;

    open spec fn view(&self) -> AbsMailbox {
        AbsMailbox {
            display_name: match self.display_name {
                Some(ref ws) => Some(abs_words(ws@)),
                None => None,
            },
            addr_spec: self.addr_spec@,
        }
    }
}

impl View for Address {
    type V = AbsAddress;

    open spec fn view(&self) -> AbsAddress {
        match *self {
            Address::Mailbox(ref m) => AbsAddress::Mailbox(m@),
            Address::Group { ref display_name, ref mailboxes } => AbsAddress::Group {
                display_name: abs_words(display_name@),
                mailboxes: mailboxes@.map_values(|m: Mailbox| m@),
            },
        }
    }
}

pub open spec fn abs_mailboxes(v: Seq<Mailbox>) -> Seq<AbsMailbox> {
    v.map_values(|m: Mailbox| m@)
}

pub open spec fn abs_addresses(v: Seq<Address>) -> Seq<AbsAddress> {
    v.map_values(|a: Address| a@)
}

// ---------------------------------------------------------------------------
// Domain literal
// ---------------------------------------------------------------------------

/// The inside of a domain literal: `(FWS? dtext)*` then `FWS? ]`; folding
/// whitespace contributes its bytes with CRLFs elided.
pub open spec fn dl_tail(s: Seq<u8>, pos: int, end: int) -> Option<(int, Seq<u8>)>
    decreases end - pos,
{
    if 0 <= pos && pos <= end && end <= s.len() {
        let pf = opt_fws(s, pos, end);
        if pos <= pf && pf <= end {
            let fws_bytes: Seq<u8> = if fws_end(s, pos, end) is Some {
                strip_crlf(s.subrange(pos, pf))
            } else {
                Seq::empty()
            };
            if pf < end && spec_is_dtext(s[pf]) {
                match dl_tail(s, pf + 1, end) {
                    Some(p) => Some((p.0, fws_bytes + seq![s[pf]] + p.1)),
                    None => None,
                }
            } else if pf < end && s[pf] == 93 {
                Some((pf + 1, Seq::empty()))
            } else {
                None
            }
        } else {
            None
        }
    } else {
        None
    }
}

/// A domain literal: optional CFWS, `[`, dtext content, `]`, optional CFWS.
pub open spec fn domain_literal_end(s: Seq<u8>, pos: int, end: int) -> Option<(int, Seq<u8>)> {
    if 0 <= pos && pos <= end && end <= s.len() {
        let p1 = opt_cfws(s, pos, end);
        if p1 < end && s[p1] == 91 {
            match dl_tail(s, p1 + 1, end) {
                Some(p) => Some((opt_cfws(s, p.0, end), p.1)),
                None => None,
            }
        } else {
            None
        }
    } else {
        None
    }
}

pub proof fn lemma_dl_tail_bounds(s: Seq<u8>, pos: int, end: int)
    requires
        0 <= pos <= end <= s.len(),
    ensures
        dl_tail(s, pos, end) matches Some(p) ==> pos < p.0 <= end,
    decreases end - pos,
{
    lemma_fws_bounds(s, pos, end);
    let pf = opt_fws(s, pos, end);
    if pf < end && spec_is_dtext(s[pf]) {
        lemma_dl_tail_bounds(s, pf + 1, end);
    }
}

pub proof fn lemma_domain_literal_bounds(s: Seq<u8>, pos: int, end: int)
    requires
        0 <= pos <= end <= s.len(),
    ensures
        domain_literal_end(s, pos, end) matches Some(p) ==> pos < p.0 <= end,
{
    lemma_cfws_bounds(s, pos, end);
    let p1 = opt_cfws(s, pos, end);
    if p1 < end && s[p1] == 91 {
        lemma_dl_tail_bounds(s, p1 + 1, end);
        match dl_tail(s, p1 + 1, end) {
            Some(p) => {
                lemma_cfws_bounds(s, p.0, end);
            },
            None => {},
        }
    }
}

fn dl_tail_at(s: &[u8], pos: usize, end: usize) -> (r: Option<(usize, Vec<u8>)>)
    requires
        pos <= end <= s@.len(),
    ensures
        (match r {
            Some((e, ref v)) => Some((e as int, v@)),
            None => None,
        }) == dl_tail(s@, pos as int, end as int),
        r matches Some(p) ==> pos < p.0 <= end,
    decreases end - pos,
{
    proof {
        lemma_fws_bounds(s@, pos as int, end as int);
        lemma_dl_tail_bounds(s@, pos as int, end as int);
    }
    let (pf, mut fws_bytes): (usize, Vec<u8>) = match fws_semantic_at(s, pos, end) {
        Some(p) => p,
        None => (pos, Vec::new()),
    };
    if pf < end && is_dtext(s[pf]) {
        match dl_tail_at(s, pf + 1, end) {
            Some((e, mut rest)) => {
                let mut v = fws_bytes;
                v.push(s[pf]);
                v.append(&mut rest);
                assert(v@ =~= (dl_tail(s@, pos as int, end as int)->0).1);
                Some((e, v))
            },
            None => None,
        }
    } else if pf < end && s[pf] == 93 {
        Some((pf + 1, Vec::new()))
    } else {
        None
    }
}

fn domain_literal_at(s: &[u8], pos: usize, end: usize) -> (r: Option<(usize, Vec<u8>)>)
    requires
        pos <= end <= s@.len(),
    ensures
        (match r {
            Some((e, ref v)) => Some((e as int, v@)),
            None => None,
        }) == domain_literal_end(s@, pos as int, end as int),
        r matches Some(p) ==> pos < p.0 <= end,
{
    proof {
        lemma_cfws_bounds(s@, pos as int, end as int);
        lemma_domain_literal_bounds(s@, pos as int, end as int);
    }
    let p1 = opt_cfws_at(s, pos, end);
    if p1 < end && s[p1] == 91 {
        match dl_tail_at(s, p1 + 1, end) {
            Some((e, v)) => {
                let p2 = opt_cfws_at(s, e, end);
                Some((p2, v))
            },
            None => None,
        }
    } else {
        None
    }
}

// ---------------------------------------------------------------------------
// Addr-spec and angle-addr
// ---------------------------------------------------------------------------

/// `addr-spec = local-part "@" domain`; local-part is a dot-atom or a
/// quoted string, domain a dot-atom or a domain literal.
pub open spec fn addr_spec_end(s: Seq<u8>, pos: int, end: int) -> Option<(int, AbsAddrSpec)> {
    if 0 <= pos && pos <= end && end <= s.len() {
        let local: Option<(int, AbsLocalPart)> = match dot_atom_end(s, pos, end) {
            Some(p) => Some((p.0, AbsLocalPart::DotAtom(p.1))),
            None => match quoted_string_end(s, pos, end) {
                Some(p) => Some((p.0, AbsLocalPart::QuotedString(p.1))),
                None => None,
            },
        };
        match local {
            Some((e, lp)) => if e < end && s[e] == 64 {
                match dot_atom_end(s, e + 1, end) {
                    Some(p) => Some(
                        (p.0, AbsAddrSpec { local: lp, domain: AbsDomainPart::DotAtom(p.1) }),
                    ),
                    None => match domain_literal_end(s, e + 1, end) {
                        Some(p) => Some(
                            (p.0, AbsAddrSpec { local: lp, domain: AbsDomainPart::Literal(p.1) }),
                        ),
                        None => None,
                    },
                }
            } else {
                None
            },
            None => None,
        }
    } else {
        None
    }
}

pub proof fn lemma_addr_spec_bounds(s: Seq<u8>, pos: int, end: int)
    requires
        0 <= pos <= end <= s.len(),
    ensures
        addr_spec_end(s, pos, end) matches Some(p) ==> pos < p.0 <= end,
{
    lemma_dot_atom_bounds(s, pos, end);
    lemma_quoted_string_bounds(s, pos, end);
    let local: Option<(int, AbsLocalPart)> = match dot_atom_end(s, pos, end) {
        Some(p) => Some((p.0, AbsLocalPart::DotAtom(p.1))),
        None => match quoted_string_end(s, pos, end) {
            Some(p) => Some((p.0, AbsLocalPart::QuotedString(p.1))),
            None => None,
        },
    };
    match local {
        Some((e, _)) => {
            if 0 <= e && e < end {
                lemma_dot_atom_bounds(s, e + 1, end);
                lemma_domain_literal_bounds(s, e + 1, end);
            }
        },
        None => {},
    }
}

/// Parses an addr-spec.
pub fn addr_spec(s: &[u8], pos: usize, end: usize) -> (r: Option<(usize, AddrSpec)>)
    requires
        pos <= end <= s@.len(),
    ensures
        (match r {
            Some((e, ref a)) => Some((e as int, a@)),
            None => None,
        }) == addr_spec_end(s@, pos as int, end as int),
        r matches Some(p) ==> pos < p.0 <= end,
{
    proof {
        lemma_addr_spec_bounds(s@, pos as int, end as int);
        lemma_dot_atom_bounds(s@, pos as int, end as int);
        lemma_quoted_string_bounds(s@, pos as int, end as int);
    }
    let local: Option<(usize, LocalPart)> = match dot_atom_at(s, pos, end) {
        Some((e, v)) => Some((e, LocalPart::DotAtom(ByteString(v)))),
        None => match quoted_string_at(s, pos, end) {
            Some((e, v)) => Some((e, LocalPart::QuotedString(ByteString(v)))),
            None => None,
        },
    };
    match local {
        Some((e, lp)) => {
            if e < end && s[e] == 64 {
                proof {
                    lemma_dot_atom_bounds(s@, e + 1, end as int);
                    lemma_domain_literal_bounds(s@, e + 1, end as int);
                }
                match dot_atom_at(s, e + 1, end) {
                    Some((e2, v)) => Some(
                        (e2, AddrSpec { local: lp, domain: DomainPart::DotAtom(ByteString(v)) }),
                    ),
                    None => match domain_literal_at(s, e + 1, end) {
                        Some((e2, v)) => Some(
                            (
                                e2,
                                AddrSpec { local: lp, domain: DomainPart::Literal(ByteString(v)) },
                            ),
                        ),
                        None => None,
                    },
                }
            } else {
                None
            }
        },
        None => None,
    }
}

/// `dot_atom` within an explicit window.
fn dot_atom_at(s: &[u8], pos: usize, end: usize) -> (r: Option<(usize, Vec<u8>)>)
    requires
        pos <= end <= s@.len(),
    ensures
        (match r {
            Some((e, ref v)) => Some((e as int, v@)),
            None => None,
        }) == dot_atom_end(s@, pos as int, end as int),
        r matches Some(p) ==> pos < p.0 <= end,
{
    proof {
        lemma_cfws_bounds(s@, pos as int, end as int);
        lemma_dot_atom_bounds(s@, pos as int, end as int);
    }
    let p1 = opt_cfws_at(s, pos, end);
    let e0 = crate::lex::run_pred(s, p1, end, crate::lex::PredKind::Atext);
    if p1 < e0 {
        let e = dot_atom_text_tail_pub(s, e0, end);
        let p2 = opt_cfws_at(s, e, end);
        let v = crate::util::copy_range(s, p1, e);
        Some((p2, v))
    } else {
        None
    }
}

/// The `("." atext+)*` continuation, re-exported for window use.
fn dot_atom_text_tail_pub(s: &[u8], pos: usize, end: usize) -> (r: usize)
    requires
        pos <= end <= s@.len(),
    ensures
        r == crate::lex::dot_atom_text_tail(s@, pos as int, end as int),
        pos <= r <= end,
    decreases end - pos,
{
    if pos < end && s[pos] == 46 {
        let e = crate::lex::run_pred(s, pos + 1, end, crate::lex::PredKind::Atext);
        if pos + 1 < e {
            dot_atom_text_tail_pub(s, e, end)
        } else {
            pos
        }
    } else {
        pos
    }
}

/// `angle-addr`: optional CFWS, `<`, addr-spec, `>`, optional CFWS.
pub open spec fn angle_addr_end(s: Seq<u8>, pos: int, end: int) -> Option<(int, AbsAddrSpec)> {
    if 0 <= pos && pos <= end && end <= s.len() {
        let p1 = opt_cfws(s, pos, end);
        if p1 < end && s[p1] == 60 {
            match addr_spec_end(s, p1 + 1, end) {
                Some(p) => if p.0 < end && s[p.0] == 62 {
                    Some((opt_cfws(s, p.0 + 1, end), p.1))
                } else {
                    None
                },
                None => None,
            }
        } else {
            None
        }
    } else {
        None
    }
}

pub proof fn lemma_angle_addr_bounds(s: Seq<u8>, pos: int, end: int)
    requires
        0 <= pos <= end <= s.len(),
    ensures
        angle_addr_end(s, pos, end) matches Some(p) ==> pos < p.0 <= end,
{
    lemma_cfws_bounds(s, pos, end);
    let p1 = opt_cfws(s, pos, end);
    if p1 < end && s[p1] == 60 {
        lemma_addr_spec_bounds(s, p1 + 1, end);
        match addr_spec_end(s, p1 + 1, end) {
            Some(p) => {
                if p.0 < end && s[p.0] == 62 {
                    lemma_cfws_bounds(s, p.0 + 1, end);
                }
            },
            None => {},
        }
    }
}

fn angle_addr_at(s: &[u8], pos: usize, end: usize) -> (r: Option<(usize, AddrSpec)>)
    requires
        pos <= end <= s@.len(),
    ensures
        (match r {
            Some((e, ref a)) => Some((e as int, a@)),
            None => None,
        }) == angle_addr_end(s@, pos as int, end as int),
        r matches Some(p) ==> pos < p.0 <= end,
{
    proof {
        lemma_cfws_bounds(s@, pos as int, end as int);
        lemma_angle_addr_bounds(s@, pos as int, end as int);
    }
    let p1 = opt_cfws_at(s, pos, end);
    if p1 < end && s[p1] == 60 {
        match addr_spec(s, p1 + 1, end) {
            Some((e, a)) => {
                if e < end && s[e] == 62 {
                    let p2 = opt_cfws_at(s, e + 1, end);
                    Some((p2, a))
                } else {
                    None
                }
            },
            None => None,
        }
    } else {
        None
    }
}

// ---------------------------------------------------------------------------
// Mailboxes, groups, addresses, lists
// ---------------------------------------------------------------------------

/// `mailbox = name-addr | addr-spec`; name-addr is an optional
/// display-name phrase followed by an angle-addr.
pub open spec fn mailbox_end(s: Seq<u8>, pos: int, end: int) -> Option<(int, AbsMailbox)> {
    let name_addr: Option<(int, AbsMailbox)> = match phrase_end(s, pos, end) {
        Some(p) => match angle_addr_end(s, p.0, end) {
            Some(q) => Some((q.0, AbsMailbox { display_name: Some(p.1), addr_spec: q.1 })),
            None => None,
        },
        None => match angle_addr_end(s, pos, end) {
            Some(q) => Some((q.0, AbsMailbox { display_name: None, addr_spec: q.1 })),
            None => None,
        },
    };
    match name_addr {
        Some(p) => Some(p),
        None => match addr_spec_end(s, pos, end) {
            Some(p) => Some((p.0, AbsMailbox { display_name: None, addr_spec: p.1 })),
            None => None,
        },
    }
}

pub proof fn lemma_mailbox_bounds(s: Seq<u8>, pos: int, end: int)
    requires
        0 <= pos <= end <= s.len(),
    ensures
        mailbox_end(s, pos, end) matches Some(p) ==> pos < p.0 <= end,
{
    crate::lex::lemma_word_bounds(s, pos, end);
    lemma_phrase_tail_bounds(s, pos, end);
    lemma_angle_addr_bounds(s, pos, end);
    lemma_addr_spec_bounds(s, pos, end);
    match phrase_end(s, pos, end) {
        Some(p) => {
            if 0 <= p.0 <= end {
                lemma_angle_addr_bounds(s, p.0, end);
            }
        },
        None => {},
    }
}

/// Parses a mailbox.
pub fn mailbox(s: &[u8], pos: usize, end: usize) -> (r: Option<(usize, Mailbox)>)
    requires
        pos <= end <= s@.len(),
    ensures
        (match r {
            Some((e, ref m)) => Some((e as int, m@)),
            None => None,
        }) == mailbox_end(s@, pos as int, end as int),
        r matches Some(p) ==> pos < p.0 <= end,
{
    proof {
        lemma_mailbox_bounds(s@, pos as int, end as int);
        crate::lex::lemma_word_bounds(s@, pos as int, end as int);
        lemma_phrase_tail_bounds(s@, pos as int, end as int);
    }
    let name_addr: Option<(usize, Mailbox)> = match phrase_at(s, pos, end) {
        Some((e, ws)) => {
            match angle_addr_at(s, e, end) {
                Some((e2, a)) => Some(
                    (e2, Mailbox { display_name: Some(ws), addr_spec: a }),
                ),
                None => None,
            }
        },
        None => match angle_addr_at(s, pos, end) {
            Some((e2, a)) => Some((e2, Mailbox { display_name: None, addr_spec: a })),
            None => None,
        },
    };
    match name_addr {
        Some(p) => Some(p),
        None => match addr_spec(s, pos, end) {
            Some((e, a)) => Some((e, Mailbox { display_name: None, addr_spec: a })),
            None => None,
        },
    }
}

/// The `("," mailbox)*` continuation of a mailbox list.
pub open spec fn ml_tail(s: Seq<u8>, pos: int, end: int) -> (int, Seq<AbsMailbox>)
    decreases end - pos,
{
    if 0 <= pos && pos < end && end <= s.len() && s[pos] == 44 {
        match mailbox_end(s, pos + 1, end) {
            Some(p) => if pos < p.0 && p.0 <= end {
                let q = ml_tail(s, p.0, end);
                (q.0, seq![p.1] + q.1)
            } else {
                (pos, Seq::empty())
            },
            None => (pos, Seq::empty()),
        }
    } else {
        (pos, Seq::empty())
    }
}

/// `mailbox-list = mailbox ("," mailbox)*`.
pub open spec fn mailbox_list_end(s: Seq<u8>, pos: int, end: int) -> Option<
    (int, Seq<AbsMailbox>),
> {
    match mailbox_end(s, pos, end) {
        Some(p) => if pos < p.0 && p.0 <= end {
            let q = ml_tail(s, p.0, end);
            Some((q.0, seq![p.1] + q.1))
        } else {
            None
        },
        None => None,
    }
}

pub proof fn lemma_ml_tail_bounds(s: Seq<u8>, pos: int, end: int)
    requires
        0 <= pos <= end <= s.len(),
    ensures
        pos <= ml_tail(s, pos, end).0 <= end,
    decreases end - pos,
{
    if pos < end && s[pos] == 44 {
        lemma_mailbox_bounds(s, pos + 1, end);
        match mailbox_end(s, pos + 1, end) {
            Some(p) => {
                if pos < p.0 && p.0 <= end {
                    lemma_ml_tail_bounds(s, p.0, end);
                }
            },
            None => {},
        }
    }
}

fn ml_tail_at(s: &[u8], pos: usize, end: usize) -> (r: (usize, Vec<Mailbox>))
    requires
        pos <= end <= s@.len(),
    ensures
        r.0 as int == ml_tail(s@, pos as int, end as int).0,
        abs_mailboxes(r.1@) == ml_tail(s@, pos as int, end as int).1,
        pos <= r.0 <= end,
    decreases end - pos,
{
    proof {
        lemma_ml_tail_bounds(s@, pos as int, end as int);
    }
    if pos < end && s[pos] == 44 {
        proof {
            lemma_mailbox_bounds(s@, pos + 1, end as int);
        }
        match mailbox(s, pos + 1, end) {
            Some((e, m)) => {
                let (e2, mut rest) = ml_tail_at(s, e, end);
                let mut v: Vec<Mailbox> = Vec::new();
                v.push(m);
                v.append(&mut rest);
                assert(abs_mailboxes(v@) =~= ml_tail(s@, pos as int, end as int).1);
                (e2, v)
            },
            None => (pos, Vec::new()),
        }
    } else {
        (pos, Vec::new())
    }
}

/// Parses a mailbox list.
pub fn mailbox_list(s: &[u8], pos: usize, end: usize) -> (r: Option<(usize, Vec<Mailbox>)>)
    requires
        pos <= end <= s@.len(),
    ensures
        (match r {
            Some((e, ref v)) => Some((e as int, abs_mailboxes(v@))),
            None => None,
        }) == mailbox_list_end(s@, pos as int, end as int),
        r matches Some(p) ==> pos < p.0 <= end,
{
    proof {
        lemma_mailbox_bounds(s@, pos as int, end as int);
    }
    match mailbox(s, pos, end) {
        Some((e, m)) => {
            proof {
                lemma_ml_tail_bounds(s@, e as int, end as int);
            }
            let (e2, mut rest) = ml_tail_at(s, e, end);
            let mut v: Vec<Mailbox> = Vec::new();
            v.push(m);
            v.append(&mut rest);
            assert(abs_mailboxes(v@) =~= (mailbox_list_end(s@, pos as int, end as int)->0).1);
            Some((e2, v))
        },
        None => None,
    }
}

/// `address = mailbox | group`; a group is a display-name, `:`, an optional
/// mailbox list, `;`, optional CFWS.
pub open spec fn address_end(s: Seq<u8>, pos: int, end: int) -> Option<(int, AbsAddress)> {
    match mailbox_end(s, pos, end) {
        Some(p) => Some((p.0, AbsAddress::Mailbox(p.1))),
        None => match phrase_end(s, pos, end) {
            Some(p) => if p.0 < end && s[p.0] == 58 {
                match mailbox_list_end(s, p.0 + 1, end) {
                    Some(q) => if q.0 < end && s[q.0] == 59 {
                        Some(
                            (
                                opt_cfws(s, q.0 + 1, end),
                                AbsAddress::Group { display_name: p.1, mailboxes: q.1 },
                            ),
                        )
                    } else {
                        None
                    },
                    None => {
                        let q1 = opt_cfws(s, p.0 + 1, end);
                        if q1 < end && s[q1] == 59 {
                            Some(
                                (
                                    opt_cfws(s, q1 + 1, end),
                                    AbsAddress::Group {
                                        display_name: p.1,
                                        mailboxes: Seq::empty(),
                                    },
                                ),
                            )
                        } else {
                            None
                        }
                    },
                }
            } else {
                None
            },
            None => None,
        },
    }
}

pub proof fn lemma_mailbox_list_bounds(s: Seq<u8>, pos: int, end: int)
    requires
        0 <= pos <= end <= s.len(),
    ensures
        mailbox_list_end(s, pos, end) matches Some(p) ==> pos < p.0 <= end,
{
    lemma_mailbox_bounds(s, pos, end);
    match mailbox_end(s, pos, end) {
        Some(p) => {
            if pos < p.0 && p.0 <= end {
                lemma_ml_tail_bounds(s, p.0, end);
            }
        },
        None => {},
    }
}

#[verifier::rlimit(100)]
#[verifier::spinoff_prover]
pub proof fn lemma_address_bounds(s: Seq<u8>, pos: int, end: int)
    requires
        0 <= pos <= end <= s.len(),
    ensures
        address_end(s, pos, end) matches Some(p) ==> pos < p.0 <= end,
{
    lemma_mailbox_bounds(s, pos, end);
    crate::lex::lemma_phrase_bounds(s, pos, end);
    match phrase_end(s, pos, end) {
        Some(p) => {
            if 0 <= p.0 && p.0 < end && s[p.0] == 58 {
                lemma_mailbox_list_bounds(s, p.0 + 1, end);
                match mailbox_list_end(s, p.0 + 1, end) {
                    Some(q) => {
                        if 0 <= q.0 && q.0 < end {
                            lemma_cfws_bounds(s, q.0 + 1, end);
                        }
                    },
                    None => {
                        lemma_cfws_bounds(s, p.0 + 1, end);
                        let q1 = opt_cfws(s, p.0 + 1, end);
                        if 0 <= q1 && q1 < end {
                            lemma_cfws_bounds(s, q1 + 1, end);
                        }
                    },
                }
            }
        },
        None => {},
    }
}

/// Parses an address.
pub fn address(s: &[u8], pos: usize, end: usize) -> (r: Option<(usize, Address)>)
    requires
        pos <= end <= s@.len(),
    ensures
        (match r {
            Some((e, ref a)) => Some((e as int, a@)),
            None => None,
        }) == address_end(s@, pos as int, end as int),
        r matches Some(p) ==> pos < p.0 <= end,
{
    proof {
        lemma_address_bounds(s@, pos as int, end as int);
        lemma_mailbox_bounds(s@, pos as int, end as int);
        crate::lex::lemma_word_bounds(s@, pos as int, end as int);
        lemma_phrase_tail_bounds(s@, pos as int, end as int);
    }
    match mailbox(s, pos, end) {
        Some((e, m)) => Some((e, Address::Mailbox(m))),
        None => match phrase_at(s, pos, end) {
            Some((e, ws)) => {
                if e < end && s[e] == 58 {
                    proof {
                        lemma_mailbox_bounds(s@, e + 1, end as int);
                    }
                    match mailbox_list(s, e + 1, end) {
                        Some((e2, mbs)) => {
                            if e2 < end && s[e2] == 59 {
                                let e3 = opt_cfws_at(s, e2 + 1, end);
                                Some((e3, Address::Group { display_name: ws, mailboxes: mbs }))
                            } else {
                                None
                            }
                        },
                        None => {
                            let q1 = opt_cfws_at(s, e + 1, end);
                            if q1 < end && s[q1] == 59 {
                                let e3 = opt_cfws_at(s, q1 + 1, end);
                                let empty: Vec<Mailbox> = Vec::new();
                                assert(abs_mailboxes(empty@) =~= Seq::<AbsMailbox>::empty());
                                Some((e3, Address::Group { display_name: ws, mailboxes: empty }))
                            } else {
                                None
                            }
                        },
                    }
                } else {
                    None
                }
            },
            None => None,
        },
    }
}

/// The `("," address)*` continuation of an address list.
pub open spec fn al_tail(s: Seq<u8>, pos: int, end: int) -> (int, Seq<AbsAddress>)
    decreases end - pos,
{
    if 0 <= pos && pos < end && end <= s.len() && s[pos] == 44 {
        match address_end(s, pos + 1, end) {
            Some(p) => if pos < p.0 && p.0 <= end {
                let q = al_tail(s, p.0, end);
                (q.0, seq![p.1] + q.1)
            } else {
                (pos, Seq::empty())
            },
            None => (pos, Seq::empty()),
        }
    } else {
        (pos, Seq::empty())
    }
}

/// `address-list = address ("," address)*`.
pub open spec fn address_list_end(s: Seq<u8>, pos: int, end: int) -> Option<
    (int, Seq<AbsAddress>),
> {
    match address_end(s, pos, end) {
        Some(p) => if pos < p.0 && p.0 <= end {
            let q = al_tail(s, p.0, end);
            Some((q.0, seq![p.1] + q.1))
        } else {
            None
        },
        None => None,
    }
}

pub proof fn lemma_al_tail_bounds(s: Seq<u8>, pos: int, end: int)
    requires
        0 <= pos <= end <= s.len(),
    ensures
        pos <= al_tail(s, pos, end).0 <= end,
    decreases end - pos,
{
    if pos < end && s[pos] == 44 {
        lemma_address_bounds(s, pos + 1, end);
        match address_end(s, pos + 1, end) {
            Some(p) => {
                if pos < p.0 && p.0 <= end {
                    lemma_al_tail_bounds(s, p.0, end);
                }
            },
            None => {},
        }
    }
}

fn al_tail_at(s: &[u8], pos: usize, end: usize) -> (r: (usize, Vec<Address>))
    requires
        pos <= end <= s@.len(),
    ensures
        r.0 as int == al_tail(s@, pos as int, end as int).0,
        abs_addresses(r.1@) == al_tail(s@, pos as int, end as int).1,
        pos <= r.0 <= end,
    decreases end - pos,
{
    proof {
        lemma_al_tail_bounds(s@, pos as int, end as int);
    }
    if pos < end && s[pos] == 44 {
        proof {
            lemma_address_bounds(s@, pos + 1, end as int);
        }
        match address(s, pos + 1, end) {
            Some((e, a)) => {
                let (e2, mut rest) = al_tail_at(s, e, end);
                let mut v: Vec<Address> = Vec::new();
                v.push(a);
                v.append(&mut rest);
                assert(abs_addresses(v@) =~= al_tail(s@, pos as int, end as int).1);
                (e2, v)
            },
            None => (pos, Vec::new()),
        }
    } else {
        (pos, Vec::new())
    }
}

/// Parses an address list.
pub fn address_list(s: &[u8], pos: usize, end: usize) -> (r: Option<(usize, Vec<Address>)>)
    requires
        pos <= end <= s@.len(),
    ensures
        (match r {
            Some((e, ref v)) => Some((e as int, abs_addresses(v@))),
            None => None,
        }) == address_list_end(s@, pos as int, end as int),
        r matches Some(p) ==> pos < p.0 <= end,
{
    proof {
        lemma_address_bounds(s@, pos as int, end as int);
    }
    match address(s, pos, end) {
        Some((e, a)) => {
            proof {
                lemma_al_tail_bounds(s@, e as int, end as int);
            }
            let (e2, mut rest) = al_tail_at(s, e, end);
            let mut v: Vec<Address> = Vec::new();
            v.push(a);
            v.append(&mut rest);
            assert(abs_addresses(v@) =~= (address_list_end(s@, pos as int, end as int)->0).1);
            Some((e2, v))
        },
        None => None,
    }
}

} // verus!
