//! The error taxonomy. Every parse failure carries the diagnostic context
//! that identified it: a position for lexical mismatches, the offending
//! component values for semantic date-time failures.

use vstd::prelude::*;
use crate::datetime::DateTime;
use crate::mime::ContentDecodeError;

verus! {

/// Why a message failed to parse.
#[derive(Debug)]
pub enum EmailError {
    /// A lexical or syntactic mismatch at the given input position.
    Parse { pos: usize },
    /// The year, month and day do not form a real calendar date.
    BadDate { y: u16, m: u8, d: u8 },
    /// The numeric zone offset is out of range.
    BadTZOffset { is_east: bool, hh: u8, mm: u8 },
    /// The time of day is out of range for the given date.
    BadDateTime { y: u16, mo: u8, d: u8, h: u8, mi: u8, s: Option<u8>, tz_east: bool, tz_hh: u8, tz_mm: u8 },
    /// The named day of the week does not match the date.
    BadWeekday { date_time: DateTime, weekday: u8 },
    /// A multipart Content-Type without a boundary parameter.
    ContentTypeWithoutBoundary,
    /// A multipart Content-Type beside a base64 or quoted-printable
    /// transfer encoding.
    MultipartWithNontrivialCte,
    /// A transfer decoder rejected the body.
    BodyDecode(ContentDecodeError),
    /// A body line of more than 998 bytes.
    LineTooLong,
}

/// The mathematical image of an `EmailError`: the same discrimination and
/// context, with the opaque decoder payloads reduced to which decoder
/// failed.
pub enum AbsError {
    Parse { pos: int },
    BadDate { y: u16, m: u8, d: u8 },
    BadTZOffset { is_east: bool, hh: u8, mm: u8 },
    BadDateTime { y: u16, mo: u8, d: u8, h: u8, mi: u8, s: Option<u8>, tz_east: bool, tz_hh: u8, tz_mm: u8 },
    BadWeekday { date_time: DateTime, weekday: u8 },
    ContentTypeWithoutBoundary,
    MultipartWithNontrivialCte,
    BodyDecodeBase64,
    BodyDecodeQuotedPrintable,
    LineTooLong,
}

impl View for EmailError {
    type V = AbsError;

    open spec fn view(&self) -> AbsError {
        match *self {
            EmailError::Parse { pos } => AbsError::Parse { pos: pos as int },
            EmailError::BadDate { y, m, d } => AbsError::BadDate { y, m, d },
            EmailError::BadTZOffset { is_east, hh, mm } => AbsError::BadTZOffset {
                is_east,
                hh,
                mm,
            },
            EmailError::BadDateTime { y, mo, d, h, mi, s, tz_east, tz_hh, tz_mm } => {
                AbsError::BadDateTime { y, mo, d, h, mi, s, tz_east, tz_hh, tz_mm }
            },
            EmailError::BadWeekday { date_time, weekday } => AbsError::BadWeekday {
                date_time,
                weekday,
            },
            EmailError::ContentTypeWithoutBoundary => AbsError::ContentTypeWithoutBoundary,
            EmailError::MultipartWithNontrivialCte => AbsError::MultipartWithNontrivialCte,
            EmailError::BodyDecode(ContentDecodeError::Base64(_)) => AbsError::BodyDecodeBase64,
            EmailError::BodyDecode(ContentDecodeError::QuotedPrintable(_)) => {
                AbsError::BodyDecodeQuotedPrintable
            },
            EmailError::LineTooLong => AbsError::LineTooLong,
        }
    }
}

} // verus!
