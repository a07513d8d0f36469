//! Points in time, as the `time` crate's broken-down `Tm` holds them, and the
//! calls into that crate that read and write them.

use vstd::prelude::*;
use crate::model::decimal;

verus! {

/// A broken-down time: the fields of `time::Tm`, as plain integers.
#[derive(Clone, Copy, Debug, PartialEq, Eq, Structural)]
pub struct Timestamp {
    /// Seconds after the minute, `0..=60`.
    pub sec: i32,
    /// Minutes after the hour, `0..=59`.
    pub min: i32,
    /// Hours after midnight, `0..=23`.
    pub hour: i32,
    /// Day of the month, `1..=31`.
    pub mday: i32,
    /// Months since January, `0..=11`.
    pub mon: i32,
    /// Years since 1900.
    pub year: i32,
    /// Days since Sunday, `0..=6`.
    pub wday: i32,
    /// Days since January 1, `0..=365`.
    pub yday: i32,
    /// Daylight saving time flag.
    pub isdst: i32,
    /// Offset from UTC in seconds.
    pub utcoff: i32,
    /// Nanoseconds after the second.
    pub nsec: i32,
}

impl Timestamp {
    /// The week day and the month are in range, and the calendar year fits an
    /// `i32`, as writing the time out requires.
    pub open spec fn wf(&self) -> bool {
        &&& 0 <= self.wday <= 6
        &&& 0 <= self.mon <= 11
        &&& self.year <= i32::MAX - 1900
    }
}

/// The date formats an `Expires` value is read in, in the order they are tried.
pub open spec fn is_expires_format(format: Seq<char>) -> bool {
    ||| format == "%a, %d %b %Y %H:%M:%S %Z"@
    ||| format == "%A, %d-%b-%y %H:%M:%S %Z"@
    ||| format == "%a, %d-%b-%Y %H:%M:%S %Z"@
    ||| format == "%a %b %d %H:%M:%S %Y"@
}

/// What `time::strptime` reads from a text in a format, if it reads anything.
pub uninterp spec fn strptime_of(s: Seq<char>, format: Seq<char>) -> Option<Timestamp>;

/// The English abbreviation of a week day, Sunday being 0.
pub open spec fn day_name(w: int) -> Seq<char> {
    if w == 0 {
        "Sun"@
    } else if w == 1 {
        "Mon"@
    } else if w == 2 {
        "Tue"@
    } else if w == 3 {
        "Wed"@
    } else if w == 4 {
        "Thu"@
    } else if w == 5 {
        "Fri"@
    } else {
        "Sat"@
    }
}

/// The English abbreviation of a month, January being 0.
pub open spec fn month_name(m: int) -> Seq<char> {
    if m == 0 {
        "Jan"@
    } else if m == 1 {
        "Feb"@
    } else if m == 2 {
        "Mar"@
    } else if m == 3 {
        "Apr"@
    } else if m == 4 {
        "May"@
    } else if m == 5 {
        "Jun"@
    } else if m == 6 {
        "Jul"@
    } else if m == 7 {
        "Aug"@
    } else if m == 8 {
        "Sep"@
    } else if m == 9 {
        "Oct"@
    } else if m == 10 {
        "Nov"@
    } else {
        "Dec"@
    }
}

/// An integer in decimal, with `-` before a negative one.
pub open spec fn signed_decimal(n: int) -> Seq<char> {
    if n < 0 {
        seq!['-'] + decimal((-n) as nat)
    } else {
        decimal(n as nat)
    }
}

/// An integer in decimal padded with zeros to two characters (`{:02}`).
pub open spec fn two_digits(n: int) -> Seq<char> {
    if 0 <= n < 10 {
        seq!['0'] + decimal(n as nat)
    } else {
        signed_decimal(n)
    }
}

/// The RFC 822 form of a time: `Wed, 21 Oct 2015 07:28:00 GMT`; away from UTC
/// the zone is left empty.
#[verifier::opaque]
pub open spec fn rfc822_text(t: Timestamp) -> Seq<char> {
    day_name(t.wday as int) + ", "@ + two_digits(t.mday as int) + " "@ + month_name(t.mon as int)
        + " "@ + signed_decimal(t.year + 1900) + " "@ + two_digits(t.hour as int) + ":"@
        + two_digits(t.min as int) + ":"@ + two_digits(t.sec as int) + (if t.utcoff == 0 {
        " GMT"@
    } else {
        " "@
    })
}

/// Relies on `time::strptime`, which depends on the text and the format alone,
/// starts from all fields zero, and only ever stores a week day in `0..=6` and
/// a month in `0..=11`. In the accepted date formats the year is read as two or
/// four digits, and no directive that can panic (`%s`, repeated `%C`) occurs.
#[verifier::external_body]
pub(crate) fn strptime(s: &str, format: &str) -> (r: Option<Timestamp>)
    requires
        is_expires_format(format@),
    ensures
        r == strptime_of(s@, format@),
        r matches Some(t) ==> t.wf(),
{
    match time::strptime(s, format) {
        Ok(t) => Some(Timestamp {
            sec: t.tm_sec, min: t.tm_min, hour: t.tm_hour, mday: t.tm_mday, mon: t.tm_mon,
            year: t.tm_year, wday: t.tm_wday, yday: t.tm_yday, isdst: t.tm_isdst,
            utcoff: t.tm_utcoff, nsec: t.tm_nsec,
        }),
        Err(_) => None,
    }
}

/// Relies on `time::Tm::rfc822`, which writes `%a, %d %b %Y %T GMT` (or `%Z`,
/// empty, for a time away from UTC) with `{:02}` for day, hour, minute and
/// second and `{}` for the year plus 1900, and panics on a week day or month out of range
/// and on a year whose `+ 1900` overflows.
#[verifier::external_body]
pub(crate) fn rfc822(t: &Timestamp) -> (r: String)
    requires
        t.wf(),
    ensures
        r@ == rfc822_text(*t),
{
    let tm = time::Tm {
        tm_sec: t.sec, tm_min: t.min, tm_hour: t.hour, tm_mday: t.mday, tm_mon: t.mon,
        tm_year: t.year, tm_wday: t.wday, tm_yday: t.yday, tm_isdst: t.isdst,
        tm_utcoff: t.utcoff, tm_nsec: t.nsec,
    };
    tm.rfc822().to_string()
}

} // verus!
