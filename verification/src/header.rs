//! Header fields: the `name ":" body CRLF` reader, unfolding, and the
//! dispatcher from field name to typed value.

use vstd::prelude::*;
use crate::lex::{
    run_end, unstructured_tail, crlf_at, spec_is_wsp, PredKind, run_pred, unstructured_at,
    lemma_unstructured_bounds, lemma_run_end, opt_cfws, opt_cfws_at, lemma_cfws_bounds,
};
use crate::util::{lower_seq, eq_ignore_ascii_case, copy_range};
use crate::address::{
    Mailbox, Address, AbsMailbox, AbsAddress, abs_mailboxes, abs_addresses, mailbox, mailbox_list,
    address_list, mailbox_end, mailbox_list_end, address_list_end,
};
use crate::datetime::{DateTime, date_time, date_time_parse};
use crate::mime::{
    ContentType, AbsContentType, ContentTransferEncoding, content_type, content_type_parse,
    content_transfer_encoding, cte_parse,
};
use crate::error::{AbsError, EmailError};
use crate::ByteString;

verus! {

/// The typed reading of a header field's body, by field name; unrecognised
/// names keep their unfolded bytes.
#[derive(Debug)]
pub enum HeaderFieldInner {
    Unstructured(ByteString),
    OrigDate(DateTime),
    From(Vec<Mailbox>),
    Sender(Mailbox),
    ReplyTo(Vec<Address>),
    To(Vec<Address>),
    Cc(Vec<Address>),
    Bcc(Vec<Address>),
    ContentType(ContentType),
    ContentTransferEncoding(ContentTransferEncoding),
}

/// The mathematical image of a `HeaderFieldInner`.
pub enum AbsHeaderFieldInner {
    Unstructured(Seq<u8>),
    OrigDate(DateTime),
    From(Seq<AbsMailbox>),
    Sender(AbsMailbox),
    ReplyTo(Seq<AbsAddress>),
    To(Seq<AbsAddress>),
    Cc(Seq<AbsAddress>),
    Bcc(Seq<AbsAddress>),
    ContentType(AbsContentType),
    ContentTransferEncoding(ContentTransferEncoding),
}

impl View for HeaderFieldInner {
    type V = AbsHeaderFieldInner;

    open spec fn view(&self) -> AbsHeaderFieldInner {
        match *self {
            HeaderFieldInner::Unstructured(ref b) => AbsHeaderFieldInner::Unstructured(b@),
            HeaderFieldInner::OrigDate(dt) => AbsHeaderFieldInner::OrigDate(dt),
            HeaderFieldInner::From(ref v) => AbsHeaderFieldInner::From(abs_mailboxes(v@)),
            HeaderFieldInner::Sender(ref m) => AbsHeaderFieldInner::Sender(m@),
            HeaderFieldInner::ReplyTo(ref v) => AbsHeaderFieldInner::ReplyTo(abs_addresses(v@)),
            HeaderFieldInner::To(ref v) => AbsHeaderFieldInner::To(abs_addresses(v@)),
            HeaderFieldInner::Cc(ref v) => AbsHeaderFieldInner::Cc(abs_addresses(v@)),
            HeaderFieldInner::Bcc(ref v) => AbsHeaderFieldInner::Bcc(abs_addresses(v@)),
            HeaderFieldInner::ContentType(ref ct) => AbsHeaderFieldInner::ContentType(ct@),
            HeaderFieldInner::ContentTransferEncoding(c) => {
                AbsHeaderFieldInner::ContentTransferEncoding(c)
            },
        }
    }
}

/// One header field: its name, the raw body bytes (folds included) together
/// with their position in the input, the unfolded body, and the typed
/// reading.
#[derive(Debug)]
pub struct HeaderField {
    name: ByteString,
    raw_start: usize,
    raw_value: ByteString,
    unfolded_value: ByteString,
    inner: HeaderFieldInner,
}

/// The mathematical image of a `HeaderField`.
pub struct AbsHeaderField {
    pub name: Seq<u8>,
    pub raw_lo: int,
    pub raw: Seq<u8>,
    pub unfolded: Seq<u8>,
    pub inner: AbsHeaderFieldInner,
}

impl View for HeaderField {
    type V = AbsHeaderField;

    closed spec fn view(&self) -> AbsHeaderField {
        AbsHeaderField {
            name: self.name@,
            raw_lo: self.raw_start as int,
            raw: self.raw_value@,
            unfolded: self.unfolded_value@,
            inner: self.inner@,
        }
    }
}

// ---------------------------------------------------------------------------
// Unfolding
// ---------------------------------------------------------------------------

/// Removes every CRLF that is immediately followed by WSP.
pub open spec fn unfold_value(v: Seq<u8>) -> Seq<u8>
    decreases v.len(),
{
    if v.len() >= 3 && v[0] == 13 && v[1] == 10 && spec_is_wsp(v[2]) {
        unfold_value(v.subrange(2, v.len() as int))
    } else if v.len() == 0 {
        Seq::empty()
    } else {
        seq![v[0]] + unfold_value(v.subrange(1, v.len() as int))
    }
}

/// Computes the unfolded form of `[i, v.len())`.
fn unfold_from(v: &[u8], i: usize) -> (r: Vec<u8>)
    requires
        i <= v@.len(),
    ensures
        r@ == unfold_value(v@.subrange(i as int, v@.len() as int)),
    decreases v@.len() - i,
{
    let n = v.len();
    let ghost tail = v@.subrange(i as int, n as int);
    if n - i >= 3 && v[i] == 13 && v[i + 1] == 10 && is_wsp_b(v[i + 2]) {
        let r = unfold_from(v, i + 2);
        proof {
            assert(tail.subrange(2, tail.len() as int) =~= v@.subrange(i + 2, n as int));
        }
        r
    } else if n == i {
        proof {
            assert(tail =~= Seq::<u8>::empty());
        }
        Vec::new()
    } else {
        let mut rest = unfold_from(v, i + 1);
        proof {
            assert(tail.subrange(1, tail.len() as int) =~= v@.subrange(i + 1, n as int));
        }
        let mut out: Vec<u8> = Vec::new();
        out.push(v[i]);
        out.append(&mut rest);
        assert(out@ =~= unfold_value(v@.subrange(i as int, n as int)));
        out
    }
}

fn is_wsp_b(b: u8) -> (r: bool)
    ensures
        r == spec_is_wsp(b),
{
    b == 32 || b == 9
}

impl HeaderField {
    /// Builds a field from its parts, computing the unfolded body once.
    pub fn new(name: ByteString, raw_value: ByteString, raw_start: usize, inner: HeaderFieldInner)
        -> (r: HeaderField)
        ensures
            r@.name == name@,
            r@.raw == raw_value@,
            r@.raw_lo == raw_start as int,
            r@.unfolded == unfold_value(raw_value@),
            r@.inner == inner@,
    {
        let unfolded = unfold_from(raw_value.0.as_slice(), 0);
        proof {
            assert(raw_value.0@.subrange(0, raw_value.0@.len() as int) =~= raw_value.0@);
        }
        HeaderField { name, raw_start, raw_value, unfolded_value: ByteString(unfolded), inner }
    }

    /// The field name, as written.
    pub fn name(&self) -> (r: &ByteString)
        ensures
            r@ == self@.name,
    {
        &self.name
    }

    /// The raw body bytes, interior folds included.
    pub fn raw_value(&self) -> (r: &ByteString)
        ensures
            r@ == self@.raw,
    {
        &self.raw_value
    }

    /// Where the raw body starts in the parsed input buffer.
    pub fn raw_span(&self) -> (r: usize)
        ensures
            r as int == self@.raw_lo,
    {
        self.raw_start
    }

    /// The typed reading of the body.
    pub fn inner(&self) -> (r: &HeaderFieldInner)
        ensures
            r@ == self@.inner,
    {
        &self.inner
    }

    /// The body with every fold elided.
    pub fn unfolded_value(&self) -> (r: &ByteString)
        ensures
            r@ == self@.unfolded,
    {
        &self.unfolded_value
    }
}

// ---------------------------------------------------------------------------
// Dispatch by field name
// ---------------------------------------------------------------------------

pub open spec fn lit_date() -> Seq<u8> {
    seq![100u8, 97u8, 116u8, 101u8]
}

pub open spec fn lit_from() -> Seq<u8> {
    seq![102u8, 114u8, 111u8, 109u8]
}

pub open spec fn lit_sender() -> Seq<u8> {
    seq![115u8, 101u8, 110u8, 100u8, 101u8, 114u8]
}

pub open spec fn lit_reply_to() -> Seq<u8> {
    seq![114u8, 101u8, 112u8, 108u8, 121u8, 45u8, 116u8, 111u8]
}

pub open spec fn lit_to() -> Seq<u8> {
    seq![116u8, 111u8]
}

pub open spec fn lit_cc() -> Seq<u8> {
    seq![99u8, 99u8]
}

pub open spec fn lit_bcc() -> Seq<u8> {
    seq![98u8, 99u8, 99u8]
}

pub open spec fn lit_content_type() -> Seq<u8> {
    seq![
        99u8, 111u8, 110u8, 116u8, 101u8, 110u8, 116u8, 45u8, 116u8, 121u8, 112u8, 101u8,
    ]
}

pub open spec fn lit_content_transfer_encoding() -> Seq<u8> {
    seq![
        99u8, 111u8, 110u8, 116u8, 101u8, 110u8, 116u8, 45u8, 116u8, 114u8, 97u8, 110u8, 115u8,
        102u8, 101u8, 114u8, 45u8, 101u8, 110u8, 99u8, 111u8, 100u8, 105u8, 110u8, 103u8,
    ]
}

/// A lexical failure inside a structured body is reported at the body's
/// position in the input; semantic failures keep their context.
pub open spec fn remap_err(e: AbsError, vs: int) -> AbsError {
    match e {
        AbsError::Parse { .. } => AbsError::Parse { pos: vs },
        other => other,
    }
}

/// Which structured reading a (lowercased) field name selects.
#[derive(Copy, Clone)]
pub enum FieldKind {
    Date,
    From,
    Sender,
    ReplyTo,
    To,
    Cc,
    Bcc,
    ContentType,
    ContentTransferEncoding,
    Other,
}

#[verifier::opaque]
pub open spec fn field_kind(lname: Seq<u8>) -> FieldKind {
    if lname == lit_date() {
        FieldKind::Date
    } else if lname == lit_from() {
        FieldKind::From
    } else if lname == lit_sender() {
        FieldKind::Sender
    } else if lname == lit_reply_to() {
        FieldKind::ReplyTo
    } else if lname == lit_to() {
        FieldKind::To
    } else if lname == lit_cc() {
        FieldKind::Cc
    } else if lname == lit_bcc() {
        FieldKind::Bcc
    } else if lname == lit_content_type() {
        FieldKind::ContentType
    } else if lname == lit_content_transfer_encoding() {
        FieldKind::ContentTransferEncoding
    } else {
        FieldKind::Other
    }
}

/// Classifies a field name, ignoring ASCII case.
#[verifier::rlimit(100)]
fn kind_of(name: &[u8]) -> (k: FieldKind)
    ensures
        k == field_kind(lower_seq(name@)),
{
    proof {
        reveal(field_kind);
    }
    let p_date: [u8; 4] = [100, 97, 116, 101];
    let p_from: [u8; 4] = [102, 114, 111, 109];
    let p_sender: [u8; 6] = [115, 101, 110, 100, 101, 114];
    let p_reply_to: [u8; 8] = [114, 101, 112, 108, 121, 45, 116, 111];
    let p_to: [u8; 2] = [116, 111];
    let p_cc: [u8; 2] = [99, 99];
    let p_bcc: [u8; 3] = [98, 99, 99];
    let p_ct: [u8; 12] = [99, 111, 110, 116, 101, 110, 116, 45, 116, 121, 112, 101];
    let p_cte: [u8; 25] = [
        99, 111, 110, 116, 101, 110, 116, 45, 116, 114, 97, 110, 115, 102, 101, 114, 45, 101, 110,
        99, 111, 100, 105, 110, 103,
    ];
    proof {
        assert(p_date@ =~= lit_date());
        assert(lower_seq(lit_date()) =~= lit_date());
        assert(p_from@ =~= lit_from());
        assert(lower_seq(lit_from()) =~= lit_from());
        assert(p_sender@ =~= lit_sender());
        assert(lower_seq(lit_sender()) =~= lit_sender());
        assert(p_reply_to@ =~= lit_reply_to());
        assert(lower_seq(lit_reply_to()) =~= lit_reply_to());
        assert(p_to@ =~= lit_to());
        assert(lower_seq(lit_to()) =~= lit_to());
        assert(p_cc@ =~= lit_cc());
        assert(lower_seq(lit_cc()) =~= lit_cc());
        assert(p_bcc@ =~= lit_bcc());
        assert(lower_seq(lit_bcc()) =~= lit_bcc());
        assert(p_ct@ =~= lit_content_type());
        assert(lower_seq(lit_content_type()) =~= lit_content_type());
        assert(p_cte@ =~= lit_content_transfer_encoding());
        assert(lower_seq(lit_content_transfer_encoding()) =~= lit_content_transfer_encoding());
    }
    if eq_ignore_ascii_case(name, p_date.as_slice()) {
        FieldKind::Date
    } else if eq_ignore_ascii_case(name, p_from.as_slice()) {
        FieldKind::From
    } else if eq_ignore_ascii_case(name, p_sender.as_slice()) {
        FieldKind::Sender
    } else if eq_ignore_ascii_case(name, p_reply_to.as_slice()) {
        FieldKind::ReplyTo
    } else if eq_ignore_ascii_case(name, p_to.as_slice()) {
        FieldKind::To
    } else if eq_ignore_ascii_case(name, p_cc.as_slice()) {
        FieldKind::Cc
    } else if eq_ignore_ascii_case(name, p_bcc.as_slice()) {
        FieldKind::Bcc
    } else if eq_ignore_ascii_case(name, p_ct.as_slice()) {
        FieldKind::ContentType
    } else if eq_ignore_ascii_case(name, p_cte.as_slice()) {
        FieldKind::ContentTransferEncoding
    } else {
        FieldKind::Other
    }
}

/// The reading of a Date body: a date-time filling the whole body.
#[verifier::opaque]
pub open spec fn ip_date(unf: Seq<u8>, vs: int) -> Result<DateTime, AbsError> {
    let n = unf.len() as int;
    match date_time_parse(unf, 0, n) {
        Ok(p) => if p.0 == n {
            Ok(p.1)
        } else {
            Err(AbsError::Parse { pos: vs })
        },
        Err(e) => Err(remap_err(e, vs)),
    }
}

/// A mailbox list filling the whole body.
#[verifier::opaque]
pub open spec fn ip_mailbox_list(unf: Seq<u8>, vs: int) -> Result<Seq<AbsMailbox>, AbsError> {
    let n = unf.len() as int;
    match mailbox_list_end(unf, 0, n) {
        Some(p) => if p.0 == n {
            Ok(p.1)
        } else {
            Err(AbsError::Parse { pos: vs })
        },
        None => Err(AbsError::Parse { pos: vs }),
    }
}

/// A single mailbox filling the whole body.
#[verifier::opaque]
pub open spec fn ip_mailbox(unf: Seq<u8>, vs: int) -> Result<AbsMailbox, AbsError> {
    let n = unf.len() as int;
    match mailbox_end(unf, 0, n) {
        Some(p) => if p.0 == n {
            Ok(p.1)
        } else {
            Err(AbsError::Parse { pos: vs })
        },
        None => Err(AbsError::Parse { pos: vs }),
    }
}

/// An address list filling the whole body.
#[verifier::opaque]
pub open spec fn ip_addr_list(unf: Seq<u8>, vs: int) -> Result<Seq<AbsAddress>, AbsError> {
    let n = unf.len() as int;
    match address_list_end(unf, 0, n) {
        Some(p) => if p.0 == n {
            Ok(p.1)
        } else {
            Err(AbsError::Parse { pos: vs })
        },
        None => Err(AbsError::Parse { pos: vs }),
    }
}

/// A Bcc body: empty (up to CFWS), or an address list.
#[verifier::opaque]
pub open spec fn ip_bcc(unf: Seq<u8>, vs: int) -> Result<Seq<AbsAddress>, AbsError> {
    let n = unf.len() as int;
    if n == 0 || opt_cfws(unf, 0, n) == n {
        Ok(Seq::empty())
    } else {
        ip_addr_list(unf, vs)
    }
}

/// A Content-Type value filling the whole body.
#[verifier::opaque]
pub open spec fn ip_content_type(unf: Seq<u8>, vs: int) -> Result<AbsContentType, AbsError> {
    let n = unf.len() as int;
    match content_type_parse(unf, 0, n) {
        Some(p) => if p.0 == n {
            Ok(p.1)
        } else {
            Err(AbsError::Parse { pos: vs })
        },
        None => Err(AbsError::Parse { pos: vs }),
    }
}

/// A Content-Transfer-Encoding value filling the whole body.
#[verifier::opaque]
pub open spec fn ip_cte(unf: Seq<u8>, vs: int) -> Result<ContentTransferEncoding, AbsError> {
    let n = unf.len() as int;
    match cte_parse(unf, 0, n) {
        Some(p) => if p.0 == n {
            Ok(p.1)
        } else {
            Err(AbsError::Parse { pos: vs })
        },
        None => Err(AbsError::Parse { pos: vs }),
    }
}

/// The typed reading of an unfolded body under the given (lowercased) field
/// name. Structured bodies must parse to their very end; `vs` is the body's
/// position in the input, for diagnostics.
pub open spec fn inner_parse(lname: Seq<u8>, unf: Seq<u8>, vs: int) -> Result<
    AbsHeaderFieldInner,
    AbsError,
> {
    match field_kind(lname) {
        FieldKind::Date => match ip_date(unf, vs) {
            Ok(dt) => Ok(AbsHeaderFieldInner::OrigDate(dt)),
            Err(e) => Err(e),
        },
        FieldKind::From => match ip_mailbox_list(unf, vs) {
            Ok(l) => Ok(AbsHeaderFieldInner::From(l)),
            Err(e) => Err(e),
        },
        FieldKind::Sender => match ip_mailbox(unf, vs) {
            Ok(m) => Ok(AbsHeaderFieldInner::Sender(m)),
            Err(e) => Err(e),
        },
        FieldKind::ReplyTo => match ip_addr_list(unf, vs) {
            Ok(l) => Ok(AbsHeaderFieldInner::ReplyTo(l)),
            Err(e) => Err(e),
        },
        FieldKind::To => match ip_addr_list(unf, vs) {
            Ok(l) => Ok(AbsHeaderFieldInner::To(l)),
            Err(e) => Err(e),
        },
        FieldKind::Cc => match ip_addr_list(unf, vs) {
            Ok(l) => Ok(AbsHeaderFieldInner::Cc(l)),
            Err(e) => Err(e),
        },
        FieldKind::Bcc => match ip_bcc(unf, vs) {
            Ok(l) => Ok(AbsHeaderFieldInner::Bcc(l)),
            Err(e) => Err(e),
        },
        FieldKind::ContentType => match ip_content_type(unf, vs) {
            Ok(ct) => Ok(AbsHeaderFieldInner::ContentType(ct)),
            Err(e) => Err(e),
        },
        FieldKind::ContentTransferEncoding => match ip_cte(unf, vs) {
            Ok(c) => Ok(AbsHeaderFieldInner::ContentTransferEncoding(c)),
            Err(e) => Err(e),
        },
        FieldKind::Other => Ok(AbsHeaderFieldInner::Unstructured(unf)),
    }
}

fn d_date(unf: &[u8], vs: usize) -> (r: Result<DateTime, EmailError>)
    ensures
        (match r {
            Ok(dt) => Ok::<DateTime, AbsError>(dt),
            Err(ref e) => Err(e@),
        }) == ip_date(unf@, vs as int),
{
    proof {
        reveal(ip_date);
    }
    let n = unf.len();
    match date_time(unf, 0) {
        Ok((e, dt)) => {
            if e == n {
                Ok(dt)
            } else {
                Err(EmailError::Parse { pos: vs })
            }
        },
        Err(er) => Err(remap_err_exec(er, vs)),
    }
}

fn d_mailbox_list(unf: &[u8], vs: usize) -> (r: Result<Vec<Mailbox>, EmailError>)
    ensures
        (match r {
            Ok(ref l) => Ok::<Seq<AbsMailbox>, AbsError>(abs_mailboxes(l@)),
            Err(ref e) => Err(e@),
        }) == ip_mailbox_list(unf@, vs as int),
{
    proof {
        reveal(ip_mailbox_list);
    }
    let n = unf.len();
    match mailbox_list(unf, 0, n) {
        Some((e, l)) => {
            if e == n {
                Ok(l)
            } else {
                Err(EmailError::Parse { pos: vs })
            }
        },
        None => Err(EmailError::Parse { pos: vs }),
    }
}

fn d_mailbox(unf: &[u8], vs: usize) -> (r: Result<Mailbox, EmailError>)
    ensures
        (match r {
            Ok(ref m) => Ok::<AbsMailbox, AbsError>(m@),
            Err(ref e) => Err(e@),
        }) == ip_mailbox(unf@, vs as int),
{
    proof {
        reveal(ip_mailbox);
    }
    let n = unf.len();
    match mailbox(unf, 0, n) {
        Some((e, m)) => {
            if e == n {
                Ok(m)
            } else {
                Err(EmailError::Parse { pos: vs })
            }
        },
        None => Err(EmailError::Parse { pos: vs }),
    }
}

fn d_addr_list(unf: &[u8], vs: usize) -> (r: Result<Vec<Address>, EmailError>)
    ensures
        (match r {
            Ok(ref l) => Ok::<Seq<AbsAddress>, AbsError>(abs_addresses(l@)),
            Err(ref e) => Err(e@),
        }) == ip_addr_list(unf@, vs as int),
{
    proof {
        reveal(ip_addr_list);
    }
    let n = unf.len();
    match address_list(unf, 0, n) {
        Some((e, l)) => {
            if e == n {
                Ok(l)
            } else {
                Err(EmailError::Parse { pos: vs })
            }
        },
        None => Err(EmailError::Parse { pos: vs }),
    }
}

fn d_bcc(unf: &[u8], vs: usize) -> (r: Result<Vec<Address>, EmailError>)
    ensures
        (match r {
            Ok(ref l) => Ok::<Seq<AbsAddress>, AbsError>(abs_addresses(l@)),
            Err(ref e) => Err(e@),
        }) == ip_bcc(unf@, vs as int),
{
    proof {
        reveal(ip_bcc);
        lemma_cfws_bounds(unf@, 0, unf@.len() as int);
    }
    let n = unf.len();
    let empty_tail: bool = if n == 0 {
        true
    } else {
        let q = opt_cfws_at(unf, 0, n);
        q == n
    };
    if empty_tail {
        let l: Vec<Address> = Vec::new();
        assert(abs_addresses(l@) =~= Seq::<AbsAddress>::empty());
        Ok(l)
    } else {
        d_addr_list(unf, vs)
    }
}

fn d_content_type(unf: &[u8], vs: usize) -> (r: Result<ContentType, EmailError>)
    ensures
        (match r {
            Ok(ref ct) => Ok::<AbsContentType, AbsError>(ct@),
            Err(ref e) => Err(e@),
        }) == ip_content_type(unf@, vs as int),
{
    proof {
        reveal(ip_content_type);
    }
    let n = unf.len();
    match content_type(unf, 0) {
        Some((e, ct)) => {
            if e == n {
                Ok(ct)
            } else {
                Err(EmailError::Parse { pos: vs })
            }
        },
        None => Err(EmailError::Parse { pos: vs }),
    }
}

fn d_cte(unf: &[u8], vs: usize) -> (r: Result<ContentTransferEncoding, EmailError>)
    ensures
        (match r {
            Ok(c) => Ok::<ContentTransferEncoding, AbsError>(c),
            Err(ref e) => Err(e@),
        }) == ip_cte(unf@, vs as int),
{
    proof {
        reveal(ip_cte);
    }
    let n = unf.len();
    match content_transfer_encoding(unf, 0) {
        Some((e, c)) => {
            if e == n {
                Ok(c)
            } else {
                Err(EmailError::Parse { pos: vs })
            }
        },
        None => Err(EmailError::Parse { pos: vs }),
    }
}

/// Applies the dispatcher to an unfolded body.
fn dispatch_inner(name: &[u8], unf: &[u8], vs: usize) -> (r: Result<HeaderFieldInner, EmailError>)
    ensures
        (match r {
            Ok(ref i) => Ok::<AbsHeaderFieldInner, AbsError>(i@),
            Err(ref e) => Err(e@),
        }) == inner_parse(lower_seq(name@), unf@, vs as int),
{
    let kind = kind_of(name);
    match kind {
        FieldKind::Date => match d_date(unf, vs) {
            Ok(dt) => Ok(HeaderFieldInner::OrigDate(dt)),
            Err(e) => Err(e),
        },
        FieldKind::From => match d_mailbox_list(unf, vs) {
            Ok(l) => Ok(HeaderFieldInner::From(l)),
            Err(e) => Err(e),
        },
        FieldKind::Sender => match d_mailbox(unf, vs) {
            Ok(m) => Ok(HeaderFieldInner::Sender(m)),
            Err(e) => Err(e),
        },
        FieldKind::ReplyTo => match d_addr_list(unf, vs) {
            Ok(l) => Ok(HeaderFieldInner::ReplyTo(l)),
            Err(e) => Err(e),
        },
        FieldKind::To => match d_addr_list(unf, vs) {
            Ok(l) => Ok(HeaderFieldInner::To(l)),
            Err(e) => Err(e),
        },
        FieldKind::Cc => match d_addr_list(unf, vs) {
            Ok(l) => Ok(HeaderFieldInner::Cc(l)),
            Err(e) => Err(e),
        },
        FieldKind::Bcc => match d_bcc(unf, vs) {
            Ok(l) => Ok(HeaderFieldInner::Bcc(l)),
            Err(e) => Err(e),
        },
        FieldKind::ContentType => match d_content_type(unf, vs) {
            Ok(ct) => Ok(HeaderFieldInner::ContentType(ct)),
            Err(e) => Err(e),
        },
        FieldKind::ContentTransferEncoding => match d_cte(unf, vs) {
            Ok(c) => Ok(HeaderFieldInner::ContentTransferEncoding(c)),
            Err(e) => Err(e),
        },
        FieldKind::Other => {
            let n = unf.len();
            let v = copy_range(unf, 0, n);
            assert(v@ =~= unf@);
            Ok(HeaderFieldInner::Unstructured(ByteString(v)))
        },
    }
}

fn remap_err_exec(e: EmailError, vs: usize) -> (r: EmailError)
    ensures
        r@ == remap_err(e@, vs as int),
{
    match e {
        EmailError::Parse { .. } => EmailError::Parse { pos: vs },
        other => other,
    }
}

// ---------------------------------------------------------------------------
// The field reader
// ---------------------------------------------------------------------------

/// One header field at `pos`: `name ":" body CRLF`, the body extending to
/// the first CRLF not followed by WSP. `Ok(None)` means no field starts
/// here (the header block has ended); an error is fatal to the message.
pub open spec fn header_field_parse(s: Seq<u8>, pos: int, end: int) -> Result<
    Option<(int, AbsHeaderField)>,
    AbsError,
> {
    if 0 <= pos && pos <= end && end <= s.len() {
        let ne = run_end(s, pos, end, PredKind::Ftext);
        if ne == pos {
            Ok(None)
        } else if ne < end && s[ne] == 58 {
            let vs = ne + 1;
            let be = unstructured_tail(s, vs, end).0;
            if crlf_at(s, be, end) {
                let raw = s.subrange(vs, be);
                let unf = unfold_value(raw);
                match inner_parse(lower_seq(s.subrange(pos, ne)), unf, vs) {
                    Ok(inner) => Ok(
                        Some(
                            (
                                be + 2,
                                AbsHeaderField {
                                    name: s.subrange(pos, ne),
                                    raw_lo: vs,
                                    raw,
                                    unfolded: unf,
                                    inner,
                                },
                            ),
                        ),
                    ),
                    Err(e) => Err(e),
                }
            } else {
                Err(AbsError::Parse { pos: be })
            }
        } else {
            Ok(None)
        }
    } else {
        Ok(None)
    }
}

/// Reads one header field within `[pos, end)`.
pub fn header_field(s: &[u8], pos: usize, end: usize) -> (r: Result<
    Option<(usize, HeaderField)>,
    EmailError,
>)
    requires
        pos <= end <= s@.len(),
    ensures
        (match r {
            Ok(Some((e, ref f))) => Ok::<Option<(int, AbsHeaderField)>, AbsError>(
                Some((e as int, f@)),
            ),
            Ok(None) => Ok(None),
            Err(ref e) => Err(e@),
        }) == header_field_parse(s@, pos as int, end as int),
        r matches Ok(Some(p)) ==> pos < p.0 <= end,
{
    proof {
        lemma_run_end(s@, pos as int, end as int, PredKind::Ftext);
        lemma_unstructured_bounds(s@, pos as int, end as int);
    }
    let ne = run_pred(s, pos, end, PredKind::Ftext);
    if ne == pos {
        Ok(None)
    } else if ne < end && s[ne] == 58 {
        let vs = ne + 1;
        proof {
            lemma_unstructured_bounds(s@, vs as int, end as int);
        }
        let (be, _discard) = unstructured_at(s, vs, end);
        if end - be >= 2 && s[be] == 13 && s[be + 1] == 10 {
            let raw = copy_range(s, vs, be);
            let name = copy_range(s, pos, ne);
            let unf = unfold_from(raw.as_slice(), 0);
            proof {
                assert(raw@.subrange(0, raw@.len() as int) =~= raw@);
            }
            match dispatch_inner(name.as_slice(), unf.as_slice(), vs) {
                Ok(inner) => {
                    let f = HeaderField {
                        name: ByteString(name),
                        raw_start: vs,
                        raw_value: ByteString(raw),
                        unfolded_value: ByteString(unf),
                        inner,
                    };
                    Ok(Some((be + 2, f)))
                },
                Err(e) => Err(e),
            }
        } else {
            assert(!crlf_at(s@, be as int, end as int));
            Err(EmailError::Parse { pos: be })
        }
    } else {
        Ok(None)
    }
}

} // verus!
