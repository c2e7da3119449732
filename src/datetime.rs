//! The fixed-width UTC timestamp token `YYYYMMDDTHH:MM:SSZ`.
use vstd::prelude::*;
use crate::error::{ErrorKind, ParseError};
use crate::text::{all_digits, chars_of, decimal_value, read_decimal, string_of_range};

verus! {

/// chrono's calendar date, carried opaquely: only whether one exists is read.
#[verifier::external_type_specification]
#[verifier::external_body]
pub struct ExNaiveDate(chrono::NaiveDate);

/// chrono's time of day, carried opaquely: only whether one exists is read.
#[verifier::external_type_specification]
#[verifier::external_body]
pub struct ExNaiveTime(chrono::NaiveTime);

pub open spec fn is_leap_year(y: int) -> bool {
    (y % 4 == 0 && y % 100 != 0) || y % 400 == 0
}

pub open spec fn days_in_month(y: int, m: int) -> int {
    if m == 2 {
        if is_leap_year(y) { 29 } else { 28 }
    } else if m == 4 || m == 6 || m == 9 || m == 11 {
        30
    } else {
        31
    }
}

/// A day of the proleptic Gregorian calendar.
pub open spec fn is_calendar_date(y: int, m: int, d: int) -> bool {
    1 <= m <= 12 && 1 <= d <= days_in_month(y, m)
}

/// Relies on chrono's `NaiveDate::from_ymd_opt` to tell real calendar days
/// from others: for the years `0..=9999` (well inside chrono's range) it returns
/// `Some` exactly for a day that the proleptic Gregorian calendar has.
pub assume_specification[ chrono::NaiveDate::from_ymd_opt ](year: i32, month: u32, day: u32) -> (r:
    Option<chrono::NaiveDate>)
    ensures
        0 <= year <= 9999 ==> (r is Some <==> is_calendar_date(
            year as int,
            month as int,
            day as int,
        )),
;

/// Relies on chrono's `NaiveTime::from_hms_opt` to check a time of day: it
/// returns `Some` exactly when the hour is below 24, the minute and the second below 60.
pub assume_specification[ chrono::NaiveTime::from_hms_opt ](hour: u32, min: u32, sec: u32) -> (r:
    Option<chrono::NaiveTime>)
    ensures
        r is Some <==> (hour < 24 && min < 60 && sec < 60),
;

/// An absolute UTC instant with second precision, as calendar fields.
#[derive(Clone, Copy, Debug, PartialEq, Eq, Structural)]
pub struct Instant {
    pub year: i32,
    pub month: u32,
    pub day: u32,
    pub hour: u32,
    pub minute: u32,
    pub second: u32,
}

impl Instant {
    /// The fields name a real day of a four-digit year and a time of day.
    pub open spec fn wf(&self) -> bool {
        &&& 0 <= self.year <= 9999
        &&& is_calendar_date(self.year as int, self.month as int, self.day as int)
        &&& self.hour < 24
        &&& self.minute < 60
        &&& self.second < 60
    }

    /// The instant with these fields, if they name a real day of a year in
    /// `0..=9999` and a time of day.
    pub fn new(year: i32, month: u32, day: u32, hour: u32, minute: u32, second: u32) -> (r: Option<
        Instant,
    >)
        ensures
            r is Some <==> (Instant { year, month, day, hour, minute, second }).wf(),
            r is Some ==> r->0 == (Instant { year, month, day, hour, minute, second }),
    {
        if year < 0 || year > 9999 {
            return None;
        }
        if chrono::NaiveDate::from_ymd_opt(year, month, day).is_some()
            && chrono::NaiveTime::from_hms_opt(hour, minute, second).is_some() {
            Some(Instant { year, month, day, hour, minute, second })
        } else {
            None
        }
    }
}

/// Number of characters in a timestamp token.
pub const TIMESTAMP_LEN: usize = 18;

/// The token's digits and separators are in place (the values are not checked).
pub open spec fn timestamp_shape(s: Seq<char>) -> bool {
    &&& s.len() >= 18
    &&& all_digits(s.subrange(0, 8))
    &&& s[8] == 'T'
    &&& all_digits(s.subrange(9, 11))
    &&& s[11] == ':'
    &&& all_digits(s.subrange(12, 14))
    &&& s[14] == ':'
    &&& all_digits(s.subrange(15, 17))
    &&& s[17] == 'Z'
}

pub open spec fn field(s: Seq<char>, from: int, to: int) -> nat {
    decimal_value(s.subrange(from, to))
}

/// The instant that the fields of a well-shaped token write.
pub open spec fn timestamp_fields(s: Seq<char>) -> Instant {
    Instant {
        year: field(s, 0, 4) as i32,
        month: field(s, 4, 6) as u32,
        day: field(s, 6, 8) as u32,
        hour: field(s, 9, 11) as u32,
        minute: field(s, 12, 14) as u32,
        second: field(s, 15, 17) as u32,
    }
}

/// The instant that the timestamp token at the start of `s` writes, if it has
/// the token's shape and names a real instant.
pub open spec fn spec_parse_datetime(s: Seq<char>) -> Option<Instant> {
    if timestamp_shape(s) && timestamp_fields(s).wf() {
        Some(timestamp_fields(s))
    } else {
        None
    }
}

proof fn lemma_digits_sub(s: Seq<char>, a: int, b: int, c: int, d: int)
    requires
        0 <= a <= c <= d <= b <= s.len(),
        all_digits(s.subrange(a, b)),
    ensures
        all_digits(s.subrange(c, d)),
{
    assert forall|i: int| 0 <= i < d - c implies crate::text::is_digit(
        #[trigger] s.subrange(c, d)[i],
    ) by {
        assert(s.subrange(c, d)[i] == s.subrange(a, b)[i + c - a]);
    }
}

fn digits_at(cs: &Vec<char>, from: usize, to: usize) -> (r: bool)
    requires
        from <= to <= cs@.len(),
    ensures
        r == all_digits(cs@.subrange(from as int, to as int)),
{
    let mut i = from;
    while i < to
        invariant
            from <= i <= to <= cs@.len(),
            all_digits(cs@.subrange(from as int, i as int)),
        decreases to - i,
    {
        if !(cs[i] >= '0' && cs[i] <= '9') {
            assert(cs@.subrange(from as int, to as int)[i - from] == cs@[i as int]);
            return false;
        }
        assert(all_digits(cs@.subrange(from as int, i + 1))) by {
            assert forall|k: int| 0 <= k < i + 1 - from implies crate::text::is_digit(
                #[trigger] cs@.subrange(from as int, i + 1)[k],
            ) by {
                if k < i - from {
                    assert(cs@.subrange(from as int, i + 1)[k] == cs@.subrange(
                        from as int,
                        i as int,
                    )[k]);
                }
            }
        }
        i += 1;
    }
    true
}

/// Reads the timestamp token that starts at `cs[pos]`; it takes
/// `TIMESTAMP_LEN` characters.
pub fn parse_datetime_at(cs: &Vec<char>, pos: usize) -> (r: Option<Instant>)
    requires
        pos <= cs@.len(),
    ensures
        r == spec_parse_datetime(cs@.skip(pos as int)),
{
    let ghost s = cs@.skip(pos as int);
    if cs.len() - pos < TIMESTAMP_LEN {
        return None;
    }
    assert(forall|i: int| 0 <= i < s.len() ==> s[i] == cs@[pos + i]);
    assert forall|a: int, b: int| 0 <= a <= b <= 18 implies #[trigger] s.subrange(a, b)
        =~= cs@.subrange(pos + a, pos + b) by {}
    if !(digits_at(cs, pos, pos + 8) && cs[pos + 8] == 'T' && digits_at(cs, pos + 9, pos + 11)
        && cs[pos + 11] == ':' && digits_at(cs, pos + 12, pos + 14) && cs[pos + 14] == ':'
        && digits_at(cs, pos + 15, pos + 17) && cs[pos + 17] == 'Z') {
        assert(s.subrange(0, 8) =~= cs@.subrange(pos as int, pos + 8));
        assert(s.subrange(9, 11) =~= cs@.subrange(pos + 9, pos + 11));
        assert(s.subrange(12, 14) =~= cs@.subrange(pos + 12, pos + 14));
        assert(s.subrange(15, 17) =~= cs@.subrange(pos + 15, pos + 17));
        return None;
    }
    assert(s.subrange(0, 8) =~= cs@.subrange(pos as int, pos + 8));
    assert(s.subrange(9, 11) =~= cs@.subrange(pos + 9, pos + 11));
    assert(s.subrange(12, 14) =~= cs@.subrange(pos + 12, pos + 14));
    assert(s.subrange(15, 17) =~= cs@.subrange(pos + 15, pos + 17));
    assert(s.subrange(0, 4) =~= cs@.subrange(pos as int, pos + 4));
    assert(s.subrange(4, 6) =~= cs@.subrange(pos + 4, pos + 6));
    assert(s.subrange(6, 8) =~= cs@.subrange(pos + 6, pos + 8));
    proof {
        lemma_digits_sub(cs@, pos as int, pos + 8, pos as int, pos + 4);
        lemma_digits_sub(cs@, pos as int, pos + 8, pos + 4, pos + 6);
        lemma_digits_sub(cs@, pos as int, pos + 8, pos + 6, pos + 8);
    }
    let year = read_decimal(cs, pos, pos + 4);
    let month = read_decimal(cs, pos + 4, pos + 6);
    let day = read_decimal(cs, pos + 6, pos + 8);
    let hour = read_decimal(cs, pos + 9, pos + 11);
    let minute = read_decimal(cs, pos + 12, pos + 14);
    let second = read_decimal(cs, pos + 15, pos + 17);
    Instant::new(year as i32, month, day, hour, minute, second)
}

/// Reads the timestamp token at the start of `i`; gives the rest of the input
/// and the instant.
pub fn parse_datetime(i: &str) -> (r: Result<(String, Instant), ParseError>)
    ensures
        match r {
            Ok((rest, t)) => spec_parse_datetime(i@) == Some(t) && rest@ == i@.skip(18),
            Err(e) => spec_parse_datetime(i@) is None && e == (ParseError {
                kind: ErrorKind::MalformedTimestamp,
                position: 0,
            }),
        },
{
    let cs = chars_of(i);
    assert(cs@.skip(0) =~= cs@);
    match parse_datetime_at(&cs, 0) {
        Some(t) => {
            let rest = string_of_range(&cs, TIMESTAMP_LEN, cs.len());
            assert(rest@ =~= i@.skip(18));
            Ok((rest, t))
        },
        None => Err(ParseError { kind: ErrorKind::MalformedTimestamp, position: 0 }),
    }
}

} // verus!
