use vstd::prelude::*;

use crate::error::JournalError;
use crate::text::{chars_of, digit, pad2, pad4, push_pad2, push_pad4, string_of};

verus! {

/// True when `y` is a leap year of the proleptic Gregorian calendar.
pub open spec fn is_leap(y: int) -> bool {
    (y % 4 == 0 && y % 100 != 0) || y % 400 == 0
}

/// The number of days of month `m` (1 to 12) of year `y`.
pub open spec fn days_in_month(y: int, m: int) -> int {
    if m == 2 {
        if is_leap(y) {
            29
        } else {
            28
        }
    } else if m == 4 || m == 6 || m == 9 || m == 11 {
        30
    } else {
        31
    }
}

/// The number of days in the months of year `y` before month `m`.
pub open spec fn days_before_month(y: int, m: int) -> int
    decreases m,
{
    if m <= 1 {
        0
    } else {
        days_before_month(y, m - 1) + days_in_month(y, m - 1)
    }
}

/// The number of days in the years from year 1 up to, not including, year `y`.
pub open spec fn days_before_year(y: int) -> int {
    365 * (y - 1) + (y - 1) / 4 - (y - 1) / 100 + (y - 1) / 400
}

/// A calendar date.
#[derive(Clone, Copy, Debug, PartialEq, Eq, Structural)]
pub struct Date {
    pub year: u16,
    pub month: u8,
    pub day: u8,
}

/// A moment: a local date and time of day, with the offset of its time zone
/// from UTC in minutes.
#[derive(Clone, Copy, Debug, PartialEq, Eq, Structural)]
pub struct Timestamp {
    pub date: Date,
    pub hour: u8,
    pub minute: u8,
    pub second: u8,
    pub offset_minutes: i16,
}

impl Date {
    /// A real day of the years 1 to 9999.
    pub open spec fn valid(self) -> bool {
        &&& 1 <= self.year <= 9999
        &&& 1 <= self.month <= 12
        &&& 1 <= self.day <= days_in_month(self.year as int, self.month as int)
    }

    /// A number that orders dates as the calendar does.
    pub open spec fn rank(self) -> int {
        self.year * 10000 + self.month * 100 + self.day
    }

    /// The number of days from 0001-01-01 to this date.
    pub open spec fn day_number(self) -> int {
        days_before_year(self.year as int) + days_before_month(self.year as int, self.month as int)
            + self.day - 1
    }

    /// The day before this one.
    pub open spec fn prev(self) -> Date {
        if self.day > 1 {
            Date { day: (self.day - 1) as u8, ..self }
        } else if self.month > 1 {
            Date {
                year: self.year,
                month: (self.month - 1) as u8,
                day: days_in_month(self.year as int, self.month - 1) as u8,
            }
        } else {
            Date { year: (self.year - 1) as u16, month: 12, day: 31 }
        }
    }

    /// The date in `YYYY-MM-DD` form.
    pub open spec fn text(self) -> Seq<char> {
        pad4(self.year as int) + seq!['-'] + pad2(self.month as int) + seq!['-'] + pad2(
            self.day as int,
        )
    }

    /// Builds the date, when it is a real day of the years 1 to 9999.
    pub fn new(year: u16, month: u8, day: u8) -> (r: Option<Date>)
        ensures
            r == (if (Date { year, month, day }).valid() {
                Some(Date { year, month, day })
            } else {
                None
            }),
    {
        if 1 <= year && year <= 9999 && 1 <= month && month <= 12 && 1 <= day && day
            <= month_length(year, month) {
            Some(Date { year, month, day })
        } else {
            None
        }
    }

    /// Whether this date lies after `other` in the calendar.
    pub fn is_after(&self, other: &Date) -> (r: bool)
        ensures
            r == (self.rank() > other.rank()),
    {
        let a: u32 = self.year as u32 * 10000 + self.month as u32 * 100 + self.day as u32;
        let b: u32 = other.year as u32 * 10000 + other.month as u32 * 100 + other.day as u32;
        a > b
    }

    /// The day before this one, unless this is the first day of year 1.
    pub fn previous(&self) -> (r: Option<Date>)
        requires
            self.valid(),
        ensures
            r == (if self.year == 1 && self.month == 1 && self.day == 1 {
                None
            } else {
                Some(self.prev())
            }),
            r matches Some(p) ==> p.valid() && p.rank() < self.rank(),
    {
        if self.day > 1 {
            Some(Date { year: self.year, month: self.month, day: self.day - 1 })
        } else if self.month > 1 {
            Some(
                Date {
                    year: self.year,
                    month: self.month - 1,
                    day: month_length(self.year, self.month - 1),
                },
            )
        } else if self.year > 1 {
            Some(Date { year: self.year - 1, month: 12, day: 31 })
        } else {
            None
        }
    }

    /// The number of days from 0001-01-01 to this date.
    pub fn days_since_origin(&self) -> (r: u32)
        requires
            self.valid(),
        ensures
            r == self.day_number(),
    {
        let y: u32 = self.year as u32 - 1;
        let mut n: u32 = 365 * y + y / 4 - y / 100 + y / 400;
        let mut m: u8 = 1;
        while m < self.month
            invariant
                self.valid(),
                1 <= m <= self.month,
                n == days_before_year(self.year as int) + days_before_month(
                    self.year as int,
                    m as int,
                ),
                days_before_month(self.year as int, m as int) <= 31 * (m - 1),
            decreases self.month - m,
        {
            n = n + month_length(self.year, m) as u32;
            m = m + 1;
        }
        n + self.day as u32 - 1
    }

    /// The date in `YYYY-MM-DD` form.
    pub fn to_text(&self) -> (r: String)
        requires
            self.valid(),
        ensures
            r@ == self.text(),
    {
        let mut out: Vec<char> = Vec::new();
        push_date(&mut out, self);
        string_of(&out)
    }
}

/// Whether `secs` seconds after 1970-01-01T00:00:00 UTC, seen `offset`
/// minutes away from UTC, falls in the years 1970 to 9999 with an offset
/// below one day.
pub open spec fn unix_in_range(secs: int, offset: int) -> bool {
    let local = secs + offset * 60;
    &&& -1439 <= offset <= 1439
    &&& secs >= 0
    &&& local >= 0
    &&& days_before_year(1970) + local / 86400 < days_before_year(10000)
}

impl Timestamp {
    /// A real moment: a valid date, a time of day, and an offset below one day.
    pub open spec fn valid(self) -> bool {
        &&& self.date.valid()
        &&& self.hour < 24
        &&& self.minute < 60
        &&& self.second < 60
        &&& -1439 <= self.offset_minutes <= 1439
    }

    /// The moment as a count of seconds on one time line, the same whatever the
    /// time zone it was written in.
    pub open spec fn instant(self) -> int {
        self.date.day_number() * 86400 + self.hour * 3600 + self.minute * 60 + self.second
            - self.offset_minutes * 60
    }

    /// The moment in ISO 8601 form, `YYYY-MM-DDTHH:MM:SS+HH:MM`.
    pub open spec fn text(self) -> Seq<char> {
        let off = if self.offset_minutes < 0 {
            -self.offset_minutes
        } else {
            self.offset_minutes as int
        };
        self.date.text() + seq!['T'] + pad2(self.hour as int) + seq![':'] + pad2(
            self.minute as int,
        ) + seq![':'] + pad2(self.second as int) + seq![
            if self.offset_minutes < 0 {
                '-'
            } else {
                '+'
            },
        ] + pad2(off / 60) + seq![':'] + pad2(off % 60)
    }

    /// Builds the moment, when it is a real one.
    pub fn new(date: Date, hour: u8, minute: u8, second: u8, offset_minutes: i16) -> (r: Option<
        Timestamp,
    >)
        ensures
            r == (if (Timestamp { date, hour, minute, second, offset_minutes }).valid() {
                Some(Timestamp { date, hour, minute, second, offset_minutes })
            } else {
                None
            }),
    {
        match Date::new(date.year, date.month, date.day) {
            Some(_) => {
                if hour < 24 && minute < 60 && second < 60 && -1439 <= offset_minutes
                    && offset_minutes <= 1439 {
                    Some(Timestamp { date, hour, minute, second, offset_minutes })
                } else {
                    None
                }
            },
            None => None,
        }
    }

    /// The moment as a count of seconds on one time line.
    pub fn seconds(&self) -> (r: i64)
        requires
            self.valid(),
        ensures
            r == self.instant(),
            -86400 <= r <= 4294967297 * 86400,
    {
        let days = self.date.days_since_origin();
        days as i64 * 86400 + self.hour as i64 * 3600 + self.minute as i64 * 60
            + self.second as i64 - self.offset_minutes as i64 * 60
    }

    /// The moment in ISO 8601 form, `YYYY-MM-DDTHH:MM:SS+HH:MM`.
    pub fn to_text(&self) -> (r: String)
        requires
            self.valid(),
        ensures
            r@ == self.text(),
    {
        let mut out: Vec<char> = Vec::new();
        push_timestamp(&mut out, self);
        string_of(&out)
    }
}

/// Appends the moment in ISO 8601 form to `out`.
pub(crate) fn push_timestamp(out: &mut Vec<char>, t: &Timestamp)
    requires
        t.valid(),
    ensures
        final(out)@ == old(out)@ + t.text(),
{
    push_date(out, &t.date);
    out.push('T');
    push_pad2(out, t.hour);
    out.push(':');
    push_pad2(out, t.minute);
    out.push(':');
    push_pad2(out, t.second);
    let off: u16 = if t.offset_minutes < 0 {
        out.push('-');
        (-t.offset_minutes) as u16
    } else {
        out.push('+');
        t.offset_minutes as u16
    };
    push_pad2(out, (off / 60) as u8);
    out.push(':');
    push_pad2(out, (off % 60) as u8);
    assert(final(out)@ =~= old(out)@ + t.text());
}

/// The value of a decimal digit character.
pub open spec fn digit_value(c: char) -> int {
    c as int - 48
}

/// Whether `c` is one of `0` to `9`.
pub open spec fn is_digit(c: char) -> bool {
    '0' <= c && c <= '9'
}

/// The date that `s` writes in `YYYY-MM-DD` form, if it writes a real one.
pub open spec fn iso_date(s: Seq<char>) -> Option<Date> {
    if s.len() == 10 && s[4] == '-' && s[7] == '-' && is_digit(s[0]) && is_digit(s[1])
        && is_digit(s[2]) && is_digit(s[3]) && is_digit(s[5]) && is_digit(s[6]) && is_digit(s[8])
        && is_digit(s[9]) {
        let d = Date {
            year: (digit_value(s[0]) * 1000 + digit_value(s[1]) * 100 + digit_value(s[2]) * 10
                + digit_value(s[3])) as u16,
            month: (digit_value(s[5]) * 10 + digit_value(s[6])) as u8,
            day: (digit_value(s[8]) * 10 + digit_value(s[9])) as u8,
        };
        if d.valid() {
            Some(d)
        } else {
            None
        }
    } else {
        None
    }
}

/// The date that a date argument names: `today`, `yesterday` (seen from
/// `today`), or a real day in `YYYY-MM-DD` form.
pub open spec fn resolve_date(s: Seq<char>, today: Date) -> Option<Date> {
    if s == seq!['t', 'o', 'd', 'a', 'y'] {
        Some(today)
    } else if s == seq!['y', 'e', 's', 't', 'e', 'r', 'd', 'a', 'y'] {
        if today.year == 1 && today.month == 1 && today.day == 1 {
            None
        } else {
            Some(today.prev())
        }
    } else {
        iso_date(s)
    }
}

fn digit_at(cs: &Vec<char>, i: usize) -> (r: Option<u16>)
    requires
        i < cs@.len(),
    ensures
        r == (if is_digit(cs@[i as int]) {
            Some(digit_value(cs@[i as int]) as u16)
        } else {
            None
        }),
{
    let c = cs[i];
    if '0' <= c && c <= '9' {
        Some((c as u32 - 48) as u16)
    } else {
        None
    }
}

fn parse_iso_date(cs: &Vec<char>) -> (r: Option<Date>)
    ensures
        r == iso_date(cs@),
{
    if cs.len() != 10 || cs[4] != '-' || cs[7] != '-' {
        return None;
    }
    let y0 = digit_at(cs, 0);
    let y1 = digit_at(cs, 1);
    let y2 = digit_at(cs, 2);
    let y3 = digit_at(cs, 3);
    let m0 = digit_at(cs, 5);
    let m1 = digit_at(cs, 6);
    let d0 = digit_at(cs, 8);
    let d1 = digit_at(cs, 9);
    match (y0, y1, y2, y3, m0, m1, d0, d1) {
        (Some(a), Some(b), Some(c), Some(d), Some(e), Some(f), Some(g), Some(h)) => {
            Date::new(a * 1000 + b * 100 + c * 10 + d, (e * 10 + f) as u8, (g * 10 + h) as u8)
        },
        _ => None,
    }
}

/// Reads a date argument: `YYYY-MM-DD`, `today`, or `yesterday`, the last two
/// seen from `today`, the current local date.
pub fn parse_date(s: &str, today: Date) -> (r: Result<Date, JournalError>)
    requires
        today.valid(),
    ensures
        r == (match resolve_date(s@, today) {
            Some(d) => Ok(d),
            None => Err(JournalError::InvalidDate),
        }),
        r matches Ok(d) ==> d.valid(),
{
    let cs = chars_of(s);
    if cs.len() == 5 && cs[0] == 't' && cs[1] == 'o' && cs[2] == 'd' && cs[3] == 'a' && cs[4]
        == 'y' {
        assert(cs@ =~= seq!['t', 'o', 'd', 'a', 'y']);
        return Ok(today);
    }
    assert(cs@ != seq!['t', 'o', 'd', 'a', 'y']);
    if cs.len() == 9 && cs[0] == 'y' && cs[1] == 'e' && cs[2] == 's' && cs[3] == 't' && cs[4]
        == 'e' && cs[5] == 'r' && cs[6] == 'd' && cs[7] == 'a' && cs[8] == 'y' {
        assert(cs@ =~= seq!['y', 'e', 's', 't', 'e', 'r', 'd', 'a', 'y']);
        return match today.previous() {
            Some(d) => Ok(d),
            None => Err(JournalError::InvalidDate),
        };
    }
    assert(cs@ != seq!['y', 'e', 's', 't', 'e', 'r', 'd', 'a', 'y']);
    match parse_iso_date(&cs) {
        Some(d) => Ok(d),
        None => Err(JournalError::InvalidDate),
    }
}

/// The number of days of month `m` of year `y`.
pub fn month_length(y: u16, m: u8) -> (r: u8)
    ensures
        r == days_in_month(y as int, m as int),
{
    if m == 2 {
        if (y % 4 == 0 && y % 100 != 0) || y % 400 == 0 {
            29
        } else {
            28
        }
    } else if m == 4 || m == 6 || m == 9 || m == 11 {
        30
    } else {
        31
    }
}

/// Appends the date in `YYYY-MM-DD` form to `out`.
pub(crate) fn push_date(out: &mut Vec<char>, d: &Date)
    requires
        d.valid(),
    ensures
        final(out)@ == old(out)@ + d.text(),
{
    push_pad4(out, d.year);
    out.push('-');
    push_pad2(out, d.month);
    out.push('-');
    push_pad2(out, d.day);
    assert(final(out)@ =~= old(out)@ + d.text());
}

/// The number of days of year `y`.
pub open spec fn days_in_year(y: int) -> int {
    if is_leap(y) {
        366
    } else {
        365
    }
}

proof fn lemma_next_year(y: int)
    requires
        y >= 1,
    ensures
        days_before_year(y + 1) == days_before_year(y) + days_in_year(y),
{
    assert(y / 4 - (y - 1) / 4 == if y % 4 == 0 { 1int } else { 0 });
    assert(y / 100 - (y - 1) / 100 == if y % 100 == 0 { 1int } else { 0 });
    assert(y / 400 - (y - 1) / 400 == if y % 400 == 0 { 1int } else { 0 });
}

proof fn lemma_year_of_months(y: int)
    ensures
        days_before_month(y, 13) == days_in_year(y),
{
    reveal_with_fuel(days_before_month, 13);
}

impl Timestamp {
    /// The moment `secs` seconds after 1970-01-01T00:00:00 UTC, written in the
    /// time zone `offset_minutes` away from UTC; nothing when that lies outside
    /// the years 1970 to 9999 or the offset is a day or more.
    pub fn from_unix(secs: i64, offset_minutes: i16) -> (r: Option<Timestamp>)
        ensures
            r is Some <==> unix_in_range(secs as int, offset_minutes as int),
            r matches Some(t) ==> t.valid() && t.offset_minutes == offset_minutes && t.instant()
                == days_before_year(1970) * 86400 + secs,
    {
        assert(days_before_year(10000) == 3652059);
        if offset_minutes < -1439 || offset_minutes > 1439 || secs < 0 || secs > 300_000_000_000 {
            return None;
        }
        let local: i64 = secs + offset_minutes as i64 * 60;
        if local < 0 {
            return None;
        }
        let mut days: i64 = local / 86400;
        let rem: i64 = local % 86400;
        let mut y: u16 = 1970;
        assert(days_before_year(1970) == 719162);
        loop
            invariant
                1970 <= y <= 9999,
                0 <= days,
                days_before_year(y as int) + days == 719162 + local / 86400,
                local / 86400 <= 300_000_000_000,
                local == secs + offset_minutes * 60,
                days_before_year(1970) == 719162,
            ensures
                1970 <= y <= 9999,
                0 <= days < days_in_year(y as int),
                days_before_year(y as int) + days == 719162 + local / 86400,
            decreases 20000 - y,
        {
            let len: i64 = if (y % 4 == 0 && y % 100 != 0) || y % 400 == 0 {
                366
            } else {
                365
            };
            if days < len {
                break;
            }
            proof {
                lemma_next_year(y as int);
            }
            assert(len == days_in_year(y as int));
            days = days - len;
            if y == 9999 {
                assert(days_before_year(10000) == days_before_year(9999) + 365);
                assert(!unix_in_range(secs as int, offset_minutes as int));
                return None;
            }
            y = y + 1;
        }
        let mut m: u8 = 1;
        proof {
            lemma_year_of_months(y as int);
        }
        loop
            invariant
                1970 <= y <= 9999,
                1 <= m <= 12,
                0 <= days,
                days_before_month(y as int, m as int) + days < days_in_year(y as int),
                days_before_year(y as int) + days_before_month(y as int, m as int) + days == 719162
                    + local / 86400,
                days_before_month(y as int, 13) == days_in_year(y as int),
            ensures
                1 <= m <= 12,
                0 <= days < days_in_month(y as int, m as int),
                days_before_year(y as int) + days_before_month(y as int, m as int) + days == 719162
                    + local / 86400,
            decreases 12 - m,
        {
            let len = month_length(y, m);
            if days < len as i64 {
                break;
            }
            days = days - len as i64;
            m = m + 1;
        }
        let date = Date { year: y, month: m, day: (days + 1) as u8 };
        let t = Timestamp {
            date,
            hour: (rem / 3600) as u8,
            minute: ((rem % 3600) / 60) as u8,
            second: (rem % 60) as u8,
            offset_minutes,
        };
        assert(t.instant() == days_before_year(1970) * 86400 + secs);
        Some(t)
    }
}

} // verus!
