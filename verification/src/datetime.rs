//! The Date header value: RFC 5322 date-time, `[day-of-week ","] day month
//! year hour ":" minute [":" second] zone`, with semantic validation of the
//! calendar date, the time of day, the zone offset, and the named weekday.

use vstd::prelude::*;
use crate::lex::{run_end, opt_cfws, PredKind, run_pred, opt_cfws_at, lemma_cfws_bounds,
    lemma_run_end};
use crate::util::{match_ci, match_ci_at};
use crate::error::{AbsError, EmailError};

verus! {

/// A date and time with a fixed zone offset, as plain component values.
/// `tz_east` is the offset's sign (true for `+`), `tz_hh`/`tz_mm` its
/// magnitude.
#[derive(Copy, Clone, Debug, PartialEq, Eq)]
pub struct DateTime {
    pub year: u16,
    pub month: u8,
    pub day: u8,
    pub hour: u8,
    pub minute: u8,
    pub second: Option<u8>,
    pub tz_east: bool,
    pub tz_hh: u8,
    pub tz_mm: u8,
}

// ---------------------------------------------------------------------------
// Calendar arithmetic, in specification
// ---------------------------------------------------------------------------

pub open spec fn is_leap_year(y: int) -> bool {
    y % 4 == 0 && (y % 100 != 0 || y % 400 == 0)
}

pub open spec fn days_in_month(y: int, m: int) -> int {
    if m == 2 {
        if is_leap_year(y) {
            29
        } else {
            28
        }
    } else if m == 4 || m == 6 || m == 9 || m == 11 {
        30
    } else {
        31
    }
}

/// Whether year, month and day form a real proleptic-Gregorian date.
pub open spec fn valid_date(y: int, m: int, d: int) -> bool {
    1 <= m <= 12 && 1 <= d <= days_in_month(y, m)
}

/// Days since 1970-01-01 of the given date (valid, year positive).
pub open spec fn days_from_civil(y: int, m: int, d: int) -> int {
    let yy = if m <= 2 {
        y - 1
    } else {
        y
    };
    let era = yy / 400;
    let yoe = yy - era * 400;
    let mp = (m + 9) % 12;
    let doy = (153 * mp + 2) / 5 + d - 1;
    let doe = yoe * 365 + yoe / 4 - yoe / 100 + doy;
    era * 146097 + doe - 719468
}

/// The day of the week of a date, 0 for Monday through 6 for Sunday.
pub open spec fn weekday_of(y: int, m: int, d: int) -> int {
    (days_from_civil(y, m, d) + 3) % 7
}

/// Relies on chrono::NaiveDate::from_ymd_opt, which returns a date exactly
/// when year, month and day form a real calendar date, and on
/// chrono::Datelike::weekday with Weekday::num_days_from_monday, which give
/// the Gregorian day of the week, 0 for Monday.
#[verifier::external_body]
fn weekday_number(y: u16, m: u8, d: u8) -> (r: Option<u8>)
    ensures
        r is Some <==> valid_date(y as int, m as int, d as int),
        r matches Some(w) ==> w as int == weekday_of(y as int, m as int, d as int) && w < 7,
{
    chrono::NaiveDate::from_ymd_opt(y as i32, m as u32, d as u32).map(
        |date| chrono::Datelike::weekday(&date).num_days_from_monday() as u8,
    )
}

// ---------------------------------------------------------------------------
// Digits
// ---------------------------------------------------------------------------

/// The decimal value of the digit bytes in `[a, b)`.
pub open spec fn digits_val(s: Seq<u8>, a: int, b: int) -> int
    decreases b - a,
{
    if a >= b || b > s.len() || a < 0 {
        0
    } else {
        digits_val(s, a, b - 1) * 10 + (s[b - 1] - 48)
    }
}

pub open spec fn pow10(n: nat) -> int
    decreases n,
{
    if n == 0 {
        1
    } else {
        10 * pow10((n - 1) as nat)
    }
}

pub proof fn lemma_pow10_small()
    ensures
        pow10(0) == 1,
        pow10(1) == 10,
        pow10(2) == 100,
        pow10(3) == 1000,
        pow10(4) == 10000,
{
    reveal_with_fuel(pow10, 5);
}

pub proof fn lemma_digits_val_bound(s: Seq<u8>, a: int, b: int)
    requires
        0 <= a <= b <= s.len(),
        forall|j: int| a <= j < b ==> crate::lex::spec_is_digit(#[trigger] s[j]),
    ensures
        0 <= digits_val(s, a, b) < pow10((b - a) as nat),
    decreases b - a,
{
    if a < b {
        lemma_digits_val_bound(s, a, b - 1);
    }
}

/// Reads the decimal value of the digits in `[a, b)`; at most four digits.
fn digits_value(s: &[u8], a: usize, b: usize) -> (r: u32)
    requires
        a <= b <= s@.len(),
        b - a <= 4,
        forall|j: int| a <= j < b ==> crate::lex::spec_is_digit(#[trigger] s@[j]),
    ensures
        r as int == digits_val(s@, a as int, b as int),
        r < 10000,
{
    proof {
        lemma_digits_val_bound(s@, a as int, b as int);
    }
    let mut val: u32 = 0;
    let mut i = a;
    while i < b
        invariant
            a <= i <= b <= s@.len(),
            b - a <= 4,
            forall|j: int| a <= j < b ==> crate::lex::spec_is_digit(#[trigger] s@[j]),
            val as int == digits_val(s@, a as int, i as int),
            val < pow10((i - a) as nat),
        decreases b - i,
    {
        proof {
            lemma_pow10_small();
            assert(pow10((i - a) as nat) <= 1000) by {
                lemma_pow10_small();
                if i - a == 0 {
                    assert((i - a) as nat == 0);
                } else if i - a == 1 {
                    assert((i - a) as nat == 1);
                } else if i - a == 2 {
                    assert((i - a) as nat == 2);
                } else {
                    assert((i - a) as nat == 3);
                }
            }
            assert(pow10(((i + 1) - a) as nat) == 10 * pow10((i - a) as nat));
            assert(crate::lex::spec_is_digit(s@[i as int]));
        }
        val = val * 10 + ((s[i] - 48) as u32);
        i += 1;
    }
    proof {
        lemma_pow10_small();
        if b - a == 0 {
            assert((b - a) as nat == 0);
        } else if b - a == 1 {
            assert((b - a) as nat == 1);
        } else if b - a == 2 {
            assert((b - a) as nat == 2);
        } else if b - a == 3 {
            assert((b - a) as nat == 3);
        } else {
            assert((b - a) as nat == 4);
        }
    }
    val
}

// ---------------------------------------------------------------------------
// Names: weekdays, months, zones
// ---------------------------------------------------------------------------

/// The weekday code named by the three letters at `p`: 0 for Monday through
/// 6 for Sunday.
#[verifier::opaque]
pub open spec fn day_name_code(s: Seq<u8>, p: int, end: int) -> Option<u8> {
    if match_ci(s, p, end, seq![109u8, 111u8, 110u8]) {
        Some(0u8)
    } else if match_ci(s, p, end, seq![116u8, 117u8, 101u8]) {
        Some(1u8)
    } else if match_ci(s, p, end, seq![119u8, 101u8, 100u8]) {
        Some(2u8)
    } else if match_ci(s, p, end, seq![116u8, 104u8, 117u8]) {
        Some(3u8)
    } else if match_ci(s, p, end, seq![102u8, 114u8, 105u8]) {
        Some(4u8)
    } else if match_ci(s, p, end, seq![115u8, 97u8, 116u8]) {
        Some(5u8)
    } else if match_ci(s, p, end, seq![115u8, 117u8, 110u8]) {
        Some(6u8)
    } else {
        None
    }
}

fn day_name_at(s: &[u8], p: usize, end: usize) -> (r: Option<u8>)
    requires
        p <= end <= s@.len(),
    ensures
        r == day_name_code(s@, p as int, end as int),
        r is Some ==> p + 3 <= end,
{
    proof {
        reveal(day_name_code);
    }
    let mon: [u8; 3] = [109, 111, 110];
    let tue: [u8; 3] = [116, 117, 101];
    let wed: [u8; 3] = [119, 101, 100];
    let thu: [u8; 3] = [116, 104, 117];
    let fri: [u8; 3] = [102, 114, 105];
    let sat: [u8; 3] = [115, 97, 116];
    let sun: [u8; 3] = [115, 117, 110];
    assert(mon@ =~= seq![109u8, 111u8, 110u8]);
    assert(tue@ =~= seq![116u8, 117u8, 101u8]);
    assert(wed@ =~= seq![119u8, 101u8, 100u8]);
    assert(thu@ =~= seq![116u8, 104u8, 117u8]);
    assert(fri@ =~= seq![102u8, 114u8, 105u8]);
    assert(sat@ =~= seq![115u8, 97u8, 116u8]);
    assert(sun@ =~= seq![115u8, 117u8, 110u8]);
    if match_ci_at(s, p, end, mon.as_slice()) {
        Some(0)
    } else if match_ci_at(s, p, end, tue.as_slice()) {
        Some(1)
    } else if match_ci_at(s, p, end, wed.as_slice()) {
        Some(2)
    } else if match_ci_at(s, p, end, thu.as_slice()) {
        Some(3)
    } else if match_ci_at(s, p, end, fri.as_slice()) {
        Some(4)
    } else if match_ci_at(s, p, end, sat.as_slice()) {
        Some(5)
    } else if match_ci_at(s, p, end, sun.as_slice()) {
        Some(6)
    } else {
        None
    }
}

/// The month, 1 through 12, named by the three letters at `p`.
#[verifier::opaque]
pub open spec fn month_code(s: Seq<u8>, p: int, end: int) -> Option<u8> {
    if match_ci(s, p, end, seq![106u8, 97u8, 110u8]) {
        Some(1u8)
    } else if match_ci(s, p, end, seq![102u8, 101u8, 98u8]) {
        Some(2u8)
    } else if match_ci(s, p, end, seq![109u8, 97u8, 114u8]) {
        Some(3u8)
    } else if match_ci(s, p, end, seq![97u8, 112u8, 114u8]) {
        Some(4u8)
    } else if match_ci(s, p, end, seq![109u8, 97u8, 121u8]) {
        Some(5u8)
    } else if match_ci(s, p, end, seq![106u8, 117u8, 110u8]) {
        Some(6u8)
    } else if match_ci(s, p, end, seq![106u8, 117u8, 108u8]) {
        Some(7u8)
    } else if match_ci(s, p, end, seq![97u8, 117u8, 103u8]) {
        Some(8u8)
    } else if match_ci(s, p, end, seq![115u8, 101u8, 112u8]) {
        Some(9u8)
    } else if match_ci(s, p, end, seq![111u8, 99u8, 116u8]) {
        Some(10u8)
    } else if match_ci(s, p, end, seq![110u8, 111u8, 118u8]) {
        Some(11u8)
    } else if match_ci(s, p, end, seq![100u8, 101u8, 99u8]) {
        Some(12u8)
    } else {
        None
    }
}

#[verifier::rlimit(50)]
fn month_at(s: &[u8], p: usize, end: usize) -> (r: Option<u8>)
    requires
        p <= end <= s@.len(),
    ensures
        r == month_code(s@, p as int, end as int),
        r is Some ==> p + 3 <= end,
{
    proof {
        reveal(month_code);
    }
    let jan: [u8; 3] = [106, 97, 110];
    let feb: [u8; 3] = [102, 101, 98];
    let mar: [u8; 3] = [109, 97, 114];
    let apr: [u8; 3] = [97, 112, 114];
    let may: [u8; 3] = [109, 97, 121];
    let jun: [u8; 3] = [106, 117, 110];
    let jul: [u8; 3] = [106, 117, 108];
    let aug: [u8; 3] = [97, 117, 103];
    let sep: [u8; 3] = [115, 101, 112];
    let oct: [u8; 3] = [111, 99, 116];
    let nov: [u8; 3] = [110, 111, 118];
    let dec: [u8; 3] = [100, 101, 99];
    assert(jan@ =~= seq![106u8, 97u8, 110u8]);
    assert(feb@ =~= seq![102u8, 101u8, 98u8]);
    assert(mar@ =~= seq![109u8, 97u8, 114u8]);
    assert(apr@ =~= seq![97u8, 112u8, 114u8]);
    assert(may@ =~= seq![109u8, 97u8, 121u8]);
    assert(jun@ =~= seq![106u8, 117u8, 110u8]);
    assert(jul@ =~= seq![106u8, 117u8, 108u8]);
    assert(aug@ =~= seq![97u8, 117u8, 103u8]);
    assert(sep@ =~= seq![115u8, 101u8, 112u8]);
    assert(oct@ =~= seq![111u8, 99u8, 116u8]);
    assert(nov@ =~= seq![110u8, 111u8, 118u8]);
    assert(dec@ =~= seq![100u8, 101u8, 99u8]);
    if match_ci_at(s, p, end, jan.as_slice()) {
        Some(1)
    } else if match_ci_at(s, p, end, feb.as_slice()) {
        Some(2)
    } else if match_ci_at(s, p, end, mar.as_slice()) {
        Some(3)
    } else if match_ci_at(s, p, end, apr.as_slice()) {
        Some(4)
    } else if match_ci_at(s, p, end, may.as_slice()) {
        Some(5)
    } else if match_ci_at(s, p, end, jun.as_slice()) {
        Some(6)
    } else if match_ci_at(s, p, end, jul.as_slice()) {
        Some(7)
    } else if match_ci_at(s, p, end, aug.as_slice()) {
        Some(8)
    } else if match_ci_at(s, p, end, sep.as_slice()) {
        Some(9)
    } else if match_ci_at(s, p, end, oct.as_slice()) {
        Some(10)
    } else if match_ci_at(s, p, end, nov.as_slice()) {
        Some(11)
    } else if match_ci_at(s, p, end, dec.as_slice()) {
        Some(12)
    } else {
        None
    }
}

pub open spec fn spec_is_alpha(b: u8) -> bool {
    (65 <= b && b <= 90) || (97 <= b && b <= 122)
}

/// A zone: `("+"|"-") 4DIGIT`, a named zone with its RFC offset, or a
/// single letter (military zone) standing for +0000. Yields the position
/// after the zone, the sign, and the offset magnitude.
#[verifier::opaque]
pub open spec fn zone_parse(s: Seq<u8>, p: int, end: int) -> Option<(int, bool, u8, u8)> {
    if 0 <= p && p <= end && end <= s.len() {
        if p < end && (s[p] == 43 || s[p] == 45) {
            let e = run_end(s, p + 1, end, PredKind::Digit);
            if e - (p + 1) == 4 {
                Some(
                    (
                        e,
                        s[p] == 43,
                        digits_val(s, p + 1, p + 3) as u8,
                        digits_val(s, p + 3, p + 5) as u8,
                    ),
                )
            } else {
                None
            }
        } else if match_ci(s, p, end, seq![103u8, 109u8, 116u8]) {
            Some((p + 3, true, 0u8, 0u8))
        } else if match_ci(s, p, end, seq![101u8, 115u8, 116u8]) {
            Some((p + 3, false, 5u8, 0u8))
        } else if match_ci(s, p, end, seq![101u8, 100u8, 116u8]) {
            Some((p + 3, false, 4u8, 0u8))
        } else if match_ci(s, p, end, seq![99u8, 115u8, 116u8]) {
            Some((p + 3, false, 6u8, 0u8))
        } else if match_ci(s, p, end, seq![99u8, 100u8, 116u8]) {
            Some((p + 3, false, 5u8, 0u8))
        } else if match_ci(s, p, end, seq![109u8, 115u8, 116u8]) {
            Some((p + 3, false, 7u8, 0u8))
        } else if match_ci(s, p, end, seq![109u8, 100u8, 116u8]) {
            Some((p + 3, false, 6u8, 0u8))
        } else if match_ci(s, p, end, seq![112u8, 115u8, 116u8]) {
            Some((p + 3, false, 8u8, 0u8))
        } else if match_ci(s, p, end, seq![112u8, 100u8, 116u8]) {
            Some((p + 3, false, 7u8, 0u8))
        } else if match_ci(s, p, end, seq![117u8, 116u8]) {
            Some((p + 2, true, 0u8, 0u8))
        } else if p < end && spec_is_alpha(s[p]) {
            Some((p + 1, true, 0u8, 0u8))
        } else {
            None
        }
    } else {
        None
    }
}

#[verifier::rlimit(50)]
fn zone_at(s: &[u8], p: usize, end: usize) -> (r: Option<(usize, bool, u8, u8)>)
    requires
        p <= end <= s@.len(),
    ensures
        (match r {
            Some(z) => Some((z.0 as int, z.1, z.2, z.3)),
            None => None,
        }) == zone_parse(s@, p as int, end as int),
        r matches Some(z) ==> p < z.0 <= end,
{
    proof {
        reveal(zone_parse);
    }
    if p < end && (s[p] == 43 || s[p] == 45) {
        let e = run_pred(s, p + 1, end, PredKind::Digit);
        proof {
            lemma_run_end(s@, p + 1, end as int, PredKind::Digit);
        }
        if e - (p + 1) == 4 {
            let hh = digits_value(s, p + 1, p + 3);
            let mm = digits_value(s, p + 3, p + 5);
            proof {
                lemma_digits_val_bound(s@, p + 1, p + 3);
                lemma_digits_val_bound(s@, p + 3, p + 5);
            }
            Some((e, s[p] == 43, hh as u8, mm as u8))
        } else {
            None
        }
    } else {
        let gmt: [u8; 3] = [103, 109, 116];
        let est: [u8; 3] = [101, 115, 116];
        let edt: [u8; 3] = [101, 100, 116];
        let cst: [u8; 3] = [99, 115, 116];
        let cdt: [u8; 3] = [99, 100, 116];
        let mst: [u8; 3] = [109, 115, 116];
        let mdt: [u8; 3] = [109, 100, 116];
        let pst: [u8; 3] = [112, 115, 116];
        let pdt: [u8; 3] = [112, 100, 116];
        let ut: [u8; 2] = [117, 116];
        assert(gmt@ =~= seq![103u8, 109u8, 116u8]);
        assert(est@ =~= seq![101u8, 115u8, 116u8]);
        assert(edt@ =~= seq![101u8, 100u8, 116u8]);
        assert(cst@ =~= seq![99u8, 115u8, 116u8]);
        assert(cdt@ =~= seq![99u8, 100u8, 116u8]);
        assert(mst@ =~= seq![109u8, 115u8, 116u8]);
        assert(mdt@ =~= seq![109u8, 100u8, 116u8]);
        assert(pst@ =~= seq![112u8, 115u8, 116u8]);
        assert(pdt@ =~= seq![112u8, 100u8, 116u8]);
        assert(ut@ =~= seq![117u8, 116u8]);
        if match_ci_at(s, p, end, gmt.as_slice()) {
            Some((p + 3, true, 0, 0))
        } else if match_ci_at(s, p, end, est.as_slice()) {
            Some((p + 3, false, 5, 0))
        } else if match_ci_at(s, p, end, edt.as_slice()) {
            Some((p + 3, false, 4, 0))
        } else if match_ci_at(s, p, end, cst.as_slice()) {
            Some((p + 3, false, 6, 0))
        } else if match_ci_at(s, p, end, cdt.as_slice()) {
            Some((p + 3, false, 5, 0))
        } else if match_ci_at(s, p, end, mst.as_slice()) {
            Some((p + 3, false, 7, 0))
        } else if match_ci_at(s, p, end, mdt.as_slice()) {
            Some((p + 3, false, 6, 0))
        } else if match_ci_at(s, p, end, pst.as_slice()) {
            Some((p + 3, false, 8, 0))
        } else if match_ci_at(s, p, end, pdt.as_slice()) {
            Some((p + 3, false, 7, 0))
        } else if match_ci_at(s, p, end, ut.as_slice()) {
            Some((p + 2, true, 0, 0))
        } else if p < end && ((65 <= s[p] && s[p] <= 90) || (97 <= s[p] && s[p] <= 122)) {
            Some((p + 1, true, 0, 0))
        } else {
            None
        }
    }
}

// ---------------------------------------------------------------------------
// The date-time parser
// ---------------------------------------------------------------------------

/// The semantic validation applied once all components are read: zone
/// offset, then calendar date, then time of day, then the named weekday.
pub open spec fn dt_semantic(
    fin: int,
    wd: Option<u8>,
    y: int,
    mo: u8,
    d: int,
    h: int,
    mi: int,
    sec: Option<u8>,
    is_east: bool,
    hh: u8,
    mm: u8,
) -> Result<(int, DateTime), AbsError> {
    if !(hh < 24 && mm < 60) {
        Err(AbsError::BadTZOffset { is_east, hh, mm })
    } else if !valid_date(y, mo as int, d) {
        Err(AbsError::BadDate { y: y as u16, m: mo, d: d as u8 })
    } else if !(h < 24 && mi < 60 && (sec matches Some(x) ==> x < 60)) {
        Err(
            AbsError::BadDateTime {
                y: y as u16,
                mo,
                d: d as u8,
                h: h as u8,
                mi: mi as u8,
                s: sec,
                tz_east: is_east,
                tz_hh: hh,
                tz_mm: mm,
            },
        )
    } else {
        let dt = DateTime {
            year: y as u16,
            month: mo,
            day: d as u8,
            hour: h as u8,
            minute: mi as u8,
            second: sec,
            tz_east: is_east,
            tz_hh: hh,
            tz_mm: mm,
        };
        match wd {
            Some(w) => if weekday_of(y, mo as int, d) == w {
                Ok((fin, dt))
            } else {
                Err(AbsError::BadWeekday { date_time: dt, weekday: w })
            },
            None => Ok((fin, dt)),
        }
    }
}

/// The zone and the semantic checks, from the position after the minute (or
/// second).
pub open spec fn dt_zone(
    s: Seq<u8>,
    pos: int,
    end: int,
    wd: Option<u8>,
    y: int,
    mo: u8,
    d: int,
    h: int,
    mi: int,
    sec: Option<u8>,
) -> Result<(int, DateTime), AbsError> {
    let pz = opt_cfws(s, pos, end);
    match zone_parse(s, pz, end) {
        Some(z) => dt_semantic(opt_cfws(s, z.0, end), wd, y, mo, d, h, mi, sec, z.1, z.2, z.3),
        None => Err(AbsError::Parse { pos: pz }),
    }
}

/// The time of day: `2DIGIT ":" 2DIGIT [":" 2DIGIT]`, then the zone.
pub open spec fn dt_time(
    s: Seq<u8>,
    pos: int,
    end: int,
    wd: Option<u8>,
    y: int,
    mo: u8,
    d: int,
) -> Result<(int, DateTime), AbsError> {
    let e1 = run_end(s, pos, end, PredKind::Digit);
    if e1 - pos == 2 {
        let h = digits_val(s, pos, e1);
        let p2 = opt_cfws(s, e1, end);
        if p2 < end && s[p2] == 58 {
            let p3 = opt_cfws(s, p2 + 1, end);
            let e3 = run_end(s, p3, end, PredKind::Digit);
            if e3 - p3 == 2 {
                let mi = digits_val(s, p3, e3);
                let p4 = opt_cfws(s, e3, end);
                if p4 < end && s[p4] == 58 {
                    let p5 = opt_cfws(s, p4 + 1, end);
                    let e5 = run_end(s, p5, end, PredKind::Digit);
                    if e5 - p5 == 2 {
                        let sec = digits_val(s, p5, e5);
                        dt_zone(s, e5, end, wd, y, mo, d, h, mi, Some(sec as u8))
                    } else {
                        Err(AbsError::Parse { pos: p5 })
                    }
                } else {
                    dt_zone(s, e3, end, wd, y, mo, d, h, mi, None)
                }
            } else {
                Err(AbsError::Parse { pos: p3 })
            }
        } else {
            Err(AbsError::Parse { pos: p2 })
        }
    } else {
        Err(AbsError::Parse { pos })
    }
}

/// The date after an optional day-of-week: `1*2DIGIT month 4DIGIT`, year at
/// least 1900, then the time.
pub open spec fn dt_after_day(s: Seq<u8>, pos: int, end: int, wd: Option<u8>) -> Result<
    (int, DateTime),
    AbsError,
> {
    let p1 = opt_cfws(s, pos, end);
    let e1 = run_end(s, p1, end, PredKind::Digit);
    if e1 - p1 == 1 || e1 - p1 == 2 {
        let d = digits_val(s, p1, e1);
        let p2 = opt_cfws(s, e1, end);
        match month_code(s, p2, end) {
            Some(mo) => {
                let p3 = opt_cfws(s, p2 + 3, end);
                let e3 = run_end(s, p3, end, PredKind::Digit);
                if e3 - p3 == 4 {
                    let y = digits_val(s, p3, e3);
                    if y >= 1900 {
                        dt_time(s, opt_cfws(s, e3, end), end, wd, y, mo, d)
                    } else {
                        Err(AbsError::Parse { pos: p3 })
                    }
                } else {
                    Err(AbsError::Parse { pos: p3 })
                }
            },
            None => Err(AbsError::Parse { pos: p2 }),
        }
    } else {
        Err(AbsError::Parse { pos: p1 })
    }
}

/// A date-time value: `[day-of-week ","] date time`, CFWS tolerated between
/// tokens; the weekday, when named, must match the date.
pub open spec fn date_time_parse(s: Seq<u8>, pos: int, end: int) -> Result<
    (int, DateTime),
    AbsError,
> {
    if 0 <= pos && pos <= end && end <= s.len() {
        let p0 = opt_cfws(s, pos, end);
        match day_name_code(s, p0, end) {
            Some(w) => {
                let pa = opt_cfws(s, p0 + 3, end);
                if pa < end && s[pa] == 44 {
                    dt_after_day(s, pa + 1, end, Some(w))
                } else {
                    Err(AbsError::Parse { pos: pa })
                }
            },
            None => dt_after_day(s, p0, end, None),
        }
    } else {
        Err(AbsError::Parse { pos })
    }
}

/// Parses a date-time value and validates it.
#[verifier::rlimit(100)]
#[verifier::spinoff_prover]
pub fn date_time(s: &[u8], pos: usize) -> (r: Result<(usize, DateTime), EmailError>)
    requires
        pos <= s@.len(),
    ensures
        (match r {
            Ok((e, dt)) => Ok::<(int, DateTime), AbsError>((e as int, dt)),
            Err(ref er) => Err(er@),
        }) == date_time_parse(s@, pos as int, s@.len() as int),
{
    let end = s.len();
    proof {
        lemma_cfws_bounds(s@, pos as int, end as int);
    }
    let p0 = opt_cfws_at(s, pos, end);
    match day_name_at(s, p0, end) {
        Some(w) => {
            let pa = opt_cfws_at(s, p0 + 3, end);
            if pa < end && s[pa] == 44 {
                dt_after_day_at(s, pa + 1, end, Some(w))
            } else {
                Err(EmailError::Parse { pos: pa })
            }
        },
        None => dt_after_day_at(s, p0, end, None),
    }
}

#[verifier::rlimit(100)]
#[verifier::spinoff_prover]
fn dt_after_day_at(s: &[u8], pos: usize, end: usize, wd: Option<u8>) -> (r: Result<
    (usize, DateTime),
    EmailError,
>)
    requires
        pos <= end <= s@.len(),
    ensures
        (match r {
            Ok((e, dt)) => Ok::<(int, DateTime), AbsError>((e as int, dt)),
            Err(ref er) => Err(er@),
        }) == dt_after_day(s@, pos as int, end as int, wd),
{
    proof {
        lemma_cfws_bounds(s@, pos as int, end as int);
    }
    let p1 = opt_cfws_at(s, pos, end);
    let e1 = run_pred(s, p1, end, PredKind::Digit);
    proof {
        lemma_run_end(s@, p1 as int, end as int, PredKind::Digit);
    }
    if e1 - p1 == 1 || e1 - p1 == 2 {
        let d = digits_value(s, p1, e1);
        proof {
            lemma_digits_val_bound(s@, p1 as int, e1 as int);
            lemma_pow10_small();
        }
        let p2 = opt_cfws_at(s, e1, end);
        match month_at(s, p2, end) {
            Some(mo) => {
                let p3 = opt_cfws_at(s, p2 + 3, end);
                let e3 = run_pred(s, p3, end, PredKind::Digit);
                proof {
                    lemma_run_end(s@, p3 as int, end as int, PredKind::Digit);
                }
                if e3 - p3 == 4 {
                    let y = digits_value(s, p3, e3);
                    if y >= 1900 {
                        let p4 = opt_cfws_at(s, e3, end);
                        dt_time_at(s, p4, end, wd, y, mo, d)
                    } else {
                        Err(EmailError::Parse { pos: p3 })
                    }
                } else {
                    Err(EmailError::Parse { pos: p3 })
                }
            },
            None => Err(EmailError::Parse { pos: p2 }),
        }
    } else {
        Err(EmailError::Parse { pos: p1 })
    }
}

#[verifier::rlimit(100)]
#[verifier::spinoff_prover]
fn dt_time_at(s: &[u8], pos: usize, end: usize, wd: Option<u8>, y: u32, mo: u8, d: u32) -> (r:
    Result<(usize, DateTime), EmailError>)
    requires
        pos <= end <= s@.len(),
        y < 10000,
        d < 100,
    ensures
        (match r {
            Ok((e, dt)) => Ok::<(int, DateTime), AbsError>((e as int, dt)),
            Err(ref er) => Err(er@),
        }) == dt_time(s@, pos as int, end as int, wd, y as int, mo, d as int),
{
    proof {
        lemma_cfws_bounds(s@, pos as int, end as int);
    }
    let e1 = run_pred(s, pos, end, PredKind::Digit);
    proof {
        lemma_run_end(s@, pos as int, end as int, PredKind::Digit);
    }
    if e1 - pos == 2 {
        let h = digits_value(s, pos, e1);
        proof {
            lemma_digits_val_bound(s@, pos as int, e1 as int);
            lemma_pow10_small();
        }
        let p2 = opt_cfws_at(s, e1, end);
        if p2 < end && s[p2] == 58 {
            let p3 = opt_cfws_at(s, p2 + 1, end);
            let e3 = run_pred(s, p3, end, PredKind::Digit);
            proof {
                lemma_run_end(s@, p3 as int, end as int, PredKind::Digit);
            }
            if e3 - p3 == 2 {
                let mi = digits_value(s, p3, e3);
                proof {
                    lemma_digits_val_bound(s@, p3 as int, e3 as int);
                }
                let p4 = opt_cfws_at(s, e3, end);
                if p4 < end && s[p4] == 58 {
                    let p5 = opt_cfws_at(s, p4 + 1, end);
                    let e5 = run_pred(s, p5, end, PredKind::Digit);
                    proof {
                        lemma_run_end(s@, p5 as int, end as int, PredKind::Digit);
                    }
                    if e5 - p5 == 2 {
                        let sec = digits_value(s, p5, e5);
                        proof {
                            lemma_digits_val_bound(s@, p5 as int, e5 as int);
                        }
                        assert(sec < 100);
                        dt_zone_at(s, e5, end, wd, y, mo, d, h, mi, Some(sec as u8))
                    } else {
                        Err(EmailError::Parse { pos: p5 })
                    }
                } else {
                    dt_zone_at(s, e3, end, wd, y, mo, d, h, mi, None)
                }
            } else {
                Err(EmailError::Parse { pos: p3 })
            }
        } else {
            Err(EmailError::Parse { pos: p2 })
        }
    } else {
        Err(EmailError::Parse { pos })
    }
}

#[verifier::rlimit(50)]
fn dt_zone_at(
    s: &[u8],
    pos: usize,
    end: usize,
    wd: Option<u8>,
    y: u32,
    mo: u8,
    d: u32,
    h: u32,
    mi: u32,
    sec: Option<u8>,
) -> (r: Result<(usize, DateTime), EmailError>)
    requires
        pos <= end <= s@.len(),
        y < 10000,
        d < 100,
        h < 100,
        mi < 100,
        dt_time_sec_ok(sec),
    ensures
        (match r {
            Ok((e, dt)) => Ok::<(int, DateTime), AbsError>((e as int, dt)),
            Err(ref er) => Err(er@),
        }) == dt_zone(s@, pos as int, end as int, wd, y as int, mo, d as int, h as int, mi as int, sec),
{
    proof {
        lemma_cfws_bounds(s@, pos as int, end as int);
    }
    let pz = opt_cfws_at(s, pos, end);
    match zone_at(s, pz, end) {
        Some((ze, is_east, hh, mm)) => {
            let fin = opt_cfws_at(s, ze, end);
            // semantic checks, in order
            if !(hh < 24 && mm < 60) {
                Err(EmailError::BadTZOffset { is_east, hh, mm })
            } else {
                match weekday_number(y as u16, mo, d as u8) {
                    None => Err(EmailError::BadDate { y: y as u16, m: mo, d: d as u8 }),
                    Some(w_act) => {
                        if !(h < 24 && mi < 60 && (match sec {
                            Some(x) => x < 60,
                            None => true,
                        })) {
                            Err(
                                EmailError::BadDateTime {
                                    y: y as u16,
                                    mo,
                                    d: d as u8,
                                    h: h as u8,
                                    mi: mi as u8,
                                    s: sec,
                                    tz_east: is_east,
                                    tz_hh: hh,
                                    tz_mm: mm,
                                },
                            )
                        } else {
                            let dt = DateTime {
                                year: y as u16,
                                month: mo,
                                day: d as u8,
                                hour: h as u8,
                                minute: mi as u8,
                                second: sec,
                                tz_east: is_east,
                                tz_hh: hh,
                                tz_mm: mm,
                            };
                            match wd {
                                Some(w) => {
                                    if w_act == w {
                                        Ok((fin, dt))
                                    } else {
                                        Err(EmailError::BadWeekday { date_time: dt, weekday: w })
                                    }
                                },
                                None => Ok((fin, dt)),
                            }
                        }
                    },
                }
            }
        },
        None => Err(EmailError::Parse { pos: pz }),
    }
}

/// Whether an optional seconds component is absent or two digits' worth.
pub open spec fn dt_time_sec_ok(sec: Option<u8>) -> bool {
    match sec {
        Some(x) => x < 100,
        None => true,
    }
}

} // verus!
