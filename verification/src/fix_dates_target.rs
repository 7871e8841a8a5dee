//! The fix-dates target: the timestamp fix-dates would store for a row,
//! from its camera-local EXIF date.

use vstd::prelude::*;
use chrono::{Datelike, TimeZone, Timelike};
use crate::text::digit_char;

verus! {

/// A wall-clock date and time, as `chrono` holds one: year, month, day,
/// hour, minute, second, and the nanoseconds past the second (a leap second
/// is second 59 with at least a full second of nanoseconds).
#[derive(Clone, Copy, Debug, PartialEq, Eq)]
pub struct WallClock {
    pub year: i32,
    pub month: u32,
    pub day: u32,
    pub hour: u32,
    pub minute: u32,
    pub second: u32,
    pub nanosecond: u32,
}

impl View for WallClock {
    type V = (i32, u32, u32, u32, u32, u32, u32);

    open spec fn view(&self) -> (i32, u32, u32, u32, u32, u32, u32) {
        (self.year, self.month, self.day, self.hour, self.minute, self.second, self.nanosecond)
    }
}

/// What `chrono` reads from `s` with the EXIF shape `%Y-%m-%dT%H:%M:%S`,
/// as (year, month, day, hour, minute, second, nanosecond).
pub uninterp spec fn exif_clock_of(s: Seq<char>) -> Option<(i32, u32, u32, u32, u32, u32, u32)>;

/// Whether `c` is an ASCII decimal digit.
pub open spec fn is_digit(c: char) -> bool {
    '0' <= c && c <= '9'
}

/// The value of a decimal digit.
pub open spec fn digit_value(c: char) -> int {
    c as int - '0' as int
}

/// Whether `s` is exactly `YYYY-MM-DDTHH:MM:SS`.
pub open spec fn exif_shape(s: Seq<char>) -> bool {
    &&& s.len() == 19
    &&& forall|i: int|
        0 <= i < 19 && i != 4 && i != 7 && i != 10 && i != 13 && i != 16 ==> is_digit(
            #[trigger] s[i],
        )
    &&& s[4] == '-' && s[7] == '-' && s[10] == 'T' && s[13] == ':' && s[16] == ':'
}

/// The number written by the two digits at `i` and `i + 1`.
pub open spec fn two_at(s: Seq<char>, i: int) -> int {
    10 * digit_value(s[i]) + digit_value(s[i + 1])
}

/// The year written by the first four digits.
pub open spec fn year_of_shape(s: Seq<char>) -> int {
    100 * two_at(s, 0) + two_at(s, 2)
}

/// Whether `y` is a leap year of the proleptic Gregorian calendar.
pub open spec fn is_leap(y: int) -> bool {
    y % 4 == 0 && (y % 100 != 0 || y % 400 == 0)
}

/// The days of month `m` of year `y`.
pub open spec fn days_in_month(y: int, m: int) -> int {
    if m == 2 {
        if is_leap(y) {
            29
        } else {
            28
        }
    } else if m == 4 || m == 6 || m == 9 || m == 11 {
        30
    } else {
        31
    }
}

/// Whether the fields of a `YYYY-MM-DDTHH:MM:SS` text name a real date and
/// time: a month, a day of that month, an hour, a minute, and a second up to
/// 60 (a leap second).
pub open spec fn shape_valid(s: Seq<char>) -> bool {
    &&& 1 <= two_at(s, 5) <= 12
    &&& 1 <= two_at(s, 8) <= days_in_month(year_of_shape(s), two_at(s, 5))
    &&& two_at(s, 11) <= 23
    &&& two_at(s, 14) <= 59
    &&& two_at(s, 17) <= 60
}

/// The wall clock a `YYYY-MM-DDTHH:MM:SS` text reads as: second 60 is a
/// leap second, held as second 59 and a full second of nanoseconds.
pub open spec fn shape_clock(s: Seq<char>) -> (i32, u32, u32, u32, u32, u32, u32) {
    let sec = two_at(s, 17);
    (
        year_of_shape(s) as i32,
        two_at(s, 5) as u32,
        two_at(s, 8) as u32,
        two_at(s, 11) as u32,
        two_at(s, 14) as u32,
        if sec == 60 {
            59u32
        } else {
            sec as u32
        },
        if sec == 60 {
            1_000_000_000u32
        } else {
            0u32
        },
    )
}

/// Two decimal digits of `n` (below 100).
pub open spec fn two_digits(n: int) -> Seq<char> {
    seq![digit_char((n / 10) as nat), digit_char((n % 10) as nat)]
}

/// A wall clock printed as rfc3339 prints its date and time for a year from
/// 0 to 9999: `YYYY-MM-DDTHH:MM:SS`, a leap second shown as second 60.
pub open spec fn clock_text(c: (i32, u32, u32, u32, u32, u32, u32)) -> Seq<char> {
    let sec = if c.6 >= 1_000_000_000 {
        c.5 + 1
    } else {
        c.5 as int
    };
    two_digits(c.0 / 100) + two_digits((c.0 as int) % 100) + seq!['-'] + two_digits(c.1 as int) + seq!['-']
        + two_digits(c.2 as int) + seq!['T'] + two_digits(c.3 as int) + seq![':'] + two_digits(
        c.4 as int,
    ) + seq![':'] + two_digits(sec)
}

/// Whether `s` is a UTC offset as rfc3339 prints one: `+HH:MM` or `-HH:MM`.
pub open spec fn offset_shape(s: Seq<char>) -> bool {
    s.len() == 6 && (s[0] == '+' || s[0] == '-') && is_digit(s[1]) && is_digit(s[2]) && s[3]
        == ':' && is_digit(s[4]) && is_digit(s[5])
}

/// `chrono::NaiveDateTime::parse_from_str` with the EXIF shape, giving the
/// wall clock it reads. Claimed: the result is `exif_clock_of` of the text;
/// for a text of exactly `YYYY-MM-DDTHH:MM:SS` it reads a value exactly
/// when the fields name a real date and time, and that value is the one the
/// digits write. Other texts `chrono` also accepts (such as unpadded fields)
/// are left to the name.
#[verifier::external_body]
fn parse_exif_date(exif_date: &str) -> (r: Option<WallClock>)
    ensures
        match r {
            Some(c) => exif_clock_of(exif_date@) == Some(c@),
            None => exif_clock_of(exif_date@) is None,
        },
        exif_shape(exif_date@) ==> (r is Some <==> shape_valid(exif_date@)),
        exif_shape(exif_date@) && r is Some ==> r->0@ == shape_clock(exif_date@),
{
    let t = chrono::NaiveDateTime::parse_from_str(exif_date, "%Y-%m-%dT%H:%M:%S").ok()?;
    Some(WallClock {
        year: t.year(),
        month: t.month(),
        day: t.day(),
        hour: t.hour(),
        minute: t.minute(),
        second: t.second(),
        nanosecond: t.nanosecond(),
    })
}

/// `chrono::Local::from_local_datetime(..).single()` then `to_rfc3339`: the
/// wall clock as a moment in this machine's time zone. `None` when the
/// wall clock names no date and time, or the local time is ambiguous or
/// skipped; which of these happens depends on the machine's time zone, so
/// no success is claimed. Claimed of every text it gives, for a year from 0
/// to 9999 and no fraction of a second: the wall clock itself, then the
/// offset as `+HH:MM` or `-HH:MM` (chrono writes the local date and time
/// unchanged, then the offset rounded to minutes).
#[verifier::external_body]
fn local_rfc3339(c: &WallClock) -> (r: Option<String>)
    ensures
        r matches Some(s) ==> (0 <= c.year <= 9999 && (c.nanosecond == 0 || c.nanosecond
            == 1_000_000_000) ==> s@.len() == 25 && s@.take(19) == clock_text(c@) && offset_shape(
            s@.skip(19),
        )),
{
    let t = chrono::NaiveDate::from_ymd_opt(c.year, c.month, c.day)?
        .and_hms_nano_opt(c.hour, c.minute, c.second, c.nanosecond)?;
    chrono::Local.from_local_datetime(&t).single().map(|d| d.to_rfc3339())
}

proof fn lemma_two_digits(s: Seq<char>, i: int)
    requires
        0 <= i,
        i + 1 < s.len(),
        is_digit(s[i]),
        is_digit(s[i + 1]),
    ensures
        two_digits(two_at(s, i)) == s.subrange(i, i + 2),
        0 <= two_at(s, i) <= 99,
{
    let a = digit_value(s[i]);
    let b = digit_value(s[i + 1]);
    assert(0 <= a <= 9 && 0 <= b <= 9);
    assert((10 * a + b) / 10 == a && (10 * a + b) % 10 == b) by (nonlinear_arith)
        requires
            0 <= a <= 9,
            0 <= b <= 9,
    ;
    assert(digit_char(a as nat) == s[i]);
    assert(digit_char(b as nat) == s[i + 1]);
    assert(two_digits(two_at(s, i)) =~= s.subrange(i, i + 2));
}

/// A `YYYY-MM-DDTHH:MM:SS` text is printed back as itself from the wall
/// clock it reads as.
proof fn lemma_shape_prints_back(s: Seq<char>)
    requires
        exif_shape(s),
    ensures
        clock_text(shape_clock(s)) == s,
        0 <= shape_clock(s).0 <= 9999,
        shape_clock(s).6 == 0 || shape_clock(s).6 == 1_000_000_000,
{
    assert(is_digit(s[0]) && is_digit(s[1]) && is_digit(s[2]) && is_digit(s[3]));
    assert(is_digit(s[5]) && is_digit(s[6]) && is_digit(s[8]) && is_digit(s[9]));
    assert(is_digit(s[11]) && is_digit(s[12]) && is_digit(s[14]) && is_digit(s[15]));
    assert(is_digit(s[17]) && is_digit(s[18]));
    lemma_two_digits(s, 0);
    lemma_two_digits(s, 2);
    lemma_two_digits(s, 5);
    lemma_two_digits(s, 8);
    lemma_two_digits(s, 11);
    lemma_two_digits(s, 14);
    lemma_two_digits(s, 17);
    let hi = two_at(s, 0);
    let lo = two_at(s, 2);
    let y = 100 * hi + lo;
    assert(y / 100 == hi && y % 100 == lo) by (nonlinear_arith)
        requires
            0 <= hi <= 99,
            0 <= lo <= 99,
            y == 100 * hi + lo,
    ;
    let c = shape_clock(s);
    assert(c.0 as int == y);
    assert(c.1 as int == two_at(s, 5));
    assert(c.2 as int == two_at(s, 8));
    assert(c.3 as int == two_at(s, 11));
    assert(c.4 as int == two_at(s, 14));
    assert(clock_text(c) =~= s);
}

/// The rfc3339 timestamp fix-dates would write to `modified_at` for a
/// stored `exif_date` ("YYYY-MM-DDTHH:MM:SS", camera-local, no time zone),
/// or `None` when it cannot be parsed or resolves to an ambiguous local
/// time. The wall clock read from the text is what goes to the local-time
/// conversion: a timestamp, when there is one, begins with that wall clock
/// and ends with the machine's offset; for a text of exactly
/// `YYYY-MM-DDTHH:MM:SS`, it begins with the text itself.
pub fn target_modified_at(exif_date: &str) -> (r: Option<String>)
    ensures
        exif_clock_of(exif_date@) is None ==> r is None,
        r is Some ==> exif_clock_of(exif_date@) is Some,
        r matches Some(s) ==> (exif_clock_of(exif_date@) matches Some(c) && (0 <= c.0 <= 9999 && (
        c.6 == 0 || c.6 == 1_000_000_000) ==> s@.len() == 25 && s@.take(19) == clock_text(c)
            && offset_shape(s@.skip(19)))),
        exif_shape(exif_date@) && !shape_valid(exif_date@) ==> r is None,
        exif_shape(exif_date@) && r is Some ==> r->0@.len() == 25 && r->0@.take(19)
            == exif_date@ && offset_shape(r->0@.skip(19)),
{
    match parse_exif_date(exif_date) {
        Some(c) => {
            proof {
                if exif_shape(exif_date@) {
                    lemma_shape_prints_back(exif_date@);
                }
            }
            local_rfc3339(&c)
        },
        None => None,
    }
}

} // verus!
