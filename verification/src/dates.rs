use vstd::prelude::*;

use crate::error::Error;
use crate::text::{trim, trim_spec};
use crate::todo::Todo;
use chrono::{DateTime, Datelike, Local, LocalResult, NaiveDate, TimeZone};

verus! {

/// Earliest Unix second chrono represents: the start of January 1 of the year -262143
/// (proleptic Gregorian, astronomical year numbering).
pub const MIN_EPOCH: i64 = -8334601228800;

/// Latest Unix second chrono represents: the end of December 31 of the year 262142.
pub const MAX_EPOCH: i64 = 8210266876799;

/// A calendar date as plain numbers.
#[derive(Clone, Copy, PartialEq, Eq, Structural, Debug)]
pub struct CalendarDate {
    pub year: i32,
    pub month: u32,
    pub day: u32,
}

/// A wall-clock date and time as plain numbers.
#[derive(Clone, Copy, PartialEq, Eq, Structural, Debug)]
pub struct WallClock {
    pub year: i32,
    pub month: u32,
    pub day: u32,
    pub hour: u32,
    pub minute: u32,
    pub second: u32,
}

/// Proleptic Gregorian calendar date and time of day (year, month, day, hour, minute,
/// second) that lies `secs` seconds after 1970-01-01 00:00:00, leap seconds not counted.
#[verifier::opaque]
pub open spec fn civil(secs: int) -> (int, int, int, int, int, int) {
    let days = secs / 86400;
    let rem = secs % 86400;
    let z = days + 719468;
    let era = z / 146097;
    let doe = z % 146097;
    let yoe = (doe - doe / 1460 + doe / 36524 - doe / 146096) / 365;
    let doy = doe - (365 * yoe + yoe / 4 - yoe / 100);
    let mp = (5 * doy + 2) / 153;
    let d = doy - (153 * mp + 2) / 5 + 1;
    let m = if mp < 10 {
        mp + 3
    } else {
        mp - 9
    };
    let y = yoe + era * 400 + (if m <= 2 {
        1int
    } else {
        0
    });
    (y, m, d, rem / 3600, (rem % 3600) / 60, rem % 60)
}

pub open spec fn date_view(d: CalendarDate) -> (int, int, int) {
    (d.year as int, d.month as int, d.day as int)
}

/// `YYYY-MM-DD` of the date `d`.
pub open spec fn date_text_of(d: CalendarDate) -> Seq<char> {
    ymd_text(d.year as int, d.month as int, d.day as int)
}

pub open spec fn wall_view(w: WallClock) -> (int, int, int, int, int, int) {
    (w.year as int, w.month as int, w.day as int, w.hour as int, w.minute as int, w.second as int)
}

/// `chrono::NaiveDate::parse_from_str(s, fmt)`: the (year, month, day) it reads, or `None`
/// when it refuses the text.
pub uninterp spec fn parsed_date(s: Seq<char>, fmt: Seq<char>) -> Option<(int, int, int)>;

/// The last `w` decimal digits of `n`, zero-padded.
pub open spec fn digits(n: int, w: nat) -> Seq<char>
    decreases w,
{
    if w == 0 {
        seq![]
    } else {
        digits(n / 10, (w - 1) as nat).push(('0' as u8 + (n % 10) as u8) as char)
    }
}

/// `YYYY-MM-DD` of a year, month and day.
pub open spec fn ymd_text(y: int, m: int, d: int) -> Seq<char> {
    digits(y, 4) + seq!['-'] + digits(m, 2) + seq!['-'] + digits(d, 2)
}

/// The format of a date: `YYYY-MM-DD`.
pub open spec fn date_format() -> Seq<char> {
    seq!['%', 'Y', '-', '%', 'm', '-', '%', 'd']
}

/// The format of a date and time: `YYYY-MM-DD HH:MM`.
pub open spec fn date_time_format() -> Seq<char> {
    seq!['%', 'Y', '-', '%', 'm', '-', '%', 'd', ' ', '%', 'H', ':', '%', 'M']
}

/// What `fmt` writes for the calendar time `c` with a year of four digits (0 to 9999):
/// `YYYY-MM-DD` for the date format, `YYYY-MM-DD HH:MM` for the date-and-time format.
pub open spec fn stamp_text(fmt: Seq<char>, c: (int, int, int, int, int, int)) -> Seq<char> {
    if fmt == date_format() {
        ymd_text(c.0, c.1, c.2)
    } else {
        ymd_text(c.0, c.1, c.2) + seq![' '] + digits(c.3, 2) + seq![':'] + digits(c.4, 2)
    }
}

/// The text written for the second `secs` seen from a time zone `off` seconds ahead of
/// UTC: the stamp when the local year has four digits, and never `?`.
pub open spec fn local_text(fmt: Seq<char>, secs: int, off: int, t: Seq<char>) -> bool {
    &&& -86400 < off < 86400
    &&& 0 <= civil(secs + off).0 <= 9999 ==> t == stamp_text(fmt, civil(secs + off))
    &&& t != seq!['?']
}

/// The text `t` is what `fmt` writes for the second `secs` in some time zone less than a
/// day away from UTC.
pub open spec fn shows_local(fmt: Seq<char>, secs: int, t: Seq<char>) -> bool {
    exists|off: int| #[trigger] local_text(fmt, secs, off, t)
}

/// `DateTime::from_timestamp(secs, 0)` moved into the machine's time zone
/// (`with_timezone(&Local)`), written with `fmt` (`format(fmt).to_string()`), together
/// with the zone's offset east of UTC (`offset().local_minus_utc()`). Defined exactly for the
/// seconds chrono represents. The offset is whatever the time zone says (within a day);
/// the text is the local calendar time of that second under that offset, zero-padded
/// field by field (`%Y` four digits for years 0 to 9999). chrono's time-zone lookup stops
/// with a panic when the machine's zone data holds no entry for the second: that depends on
/// the machine, not on the arguments, so no precondition excludes it.
#[verifier::external_body]
fn local_stamp(secs: i64, fmt: &str) -> (r: Option<(String, i32)>)
    requires
        fmt@ == date_format() || fmt@ == date_time_format(),
    ensures
        r is Some <==> MIN_EPOCH <= secs <= MAX_EPOCH,
        r matches Some((t, off)) ==> local_text(fmt@, secs as int, off as int, t@),
{
    match DateTime::from_timestamp(secs, 0) {
        None => None,
        Some(t) => {
            let l = t.with_timezone(&Local);
            Some((l.format(fmt).to_string(), l.offset().local_minus_utc()))
        },
    }
}

/// `NaiveDate::parse_from_str(s, fmt)`, read back as year, month and day: `None` exactly
/// when `parsed_date(s, fmt)` is `None`. Under the date format, the text `YYYY-MM-DD` of a
/// real date with a four-digit year is read as that date.
#[verifier::external_body]
fn parse_date(s: &str, fmt: &str) -> (r: Option<CalendarDate>)
    ensures
        r is None <==> parsed_date(s@, fmt@) is None,
        r matches Some(d) ==> parsed_date(s@, fmt@) == Some(date_view(d)),
        fmt@ == date_format() && canonical_date(s@) ==> r is Some,
        r matches Some(c) ==> (fmt@ == date_format() && canonical_date(s@) ==> real_date_of(c) && s@ == date_text_of(c)),
{
    match NaiveDate::parse_from_str(s, fmt) {
        Ok(d) => Some(CalendarDate { year: d.year(), month: d.month(), day: d.day() }),
        Err(_) => None,
    }
}

/// Days in month `m` of the proleptic Gregorian year `y`.
pub open spec fn days_in_month(y: int, m: int) -> int {
    if m == 2 {
        if (y % 4 == 0 && y % 100 != 0) || y % 400 == 0 {
            29
        } else {
            28
        }
    } else if m == 4 || m == 6 || m == 9 || m == 11 {
        30
    } else {
        31
    }
}

/// `c` is a real day with a year from 0 to 9999.
pub open spec fn real_date_of(c: CalendarDate) -> bool {
    real_date(c.year as int, c.month as int, c.day as int)
}

/// `s` is `YYYY-MM-DD` of a real date with a year from 0 to 9999.
pub open spec fn canonical_date(s: Seq<char>) -> bool {
    exists|y: int, m: int, d: int| real_date(y, m, d) && s == #[trigger] ymd_text(y, m, d)
}

/// `y-m-d` is a real day of the proleptic Gregorian calendar with a year from 0 to 9999.
pub open spec fn real_date(y: int, m: int, d: int) -> bool {
    0 <= y <= 9999 && 1 <= m <= 12 && 1 <= d <= days_in_month(y, m)
}

/// The Unix second at which the machine's clock shows `w`
/// (`NaiveDate::from_ymd_opt(..)` and `and_hms_opt(..)`, then `Local.from_local_datetime`
/// and `timestamp()`), with the zone's offset east of UTC at that moment. `None` when `w`
/// is not a date and time chrono represents, or when the clock skips or repeats it. The
/// outcome depends on the machine's time zone: what is stated is that the second returned
/// shows exactly `w` under the offset returned, which lies within a day. As for
/// `local_stamp`, zone data with no entry for `w` makes chrono panic; that is the machine's
/// doing, not the argument's.
#[verifier::external_body]
fn local_instant(w: WallClock) -> (r: Option<(i64, i32)>)
    ensures
        r matches Some((e, off)) ==> -86400 < off < 86400 && civil(e + off) == wall_view(w),
{
    let date = match NaiveDate::from_ymd_opt(w.year, w.month, w.day) {
        Some(d) => d,
        None => return None,
    };
    let t = match date.and_hms_opt(w.hour, w.minute, w.second) {
        Some(t) => t,
        None => return None,
    };
    match Local.from_local_datetime(&t) {
        LocalResult::Single(x) => Some((x.timestamp(), x.offset().local_minus_utc())),
        LocalResult::Ambiguous(_, _) => None,
        LocalResult::None => None,
    }
}

/// The second `e` shows midnight at the start of the day `ymd` in a time zone `off`
/// seconds ahead of UTC, an offset within a day.
pub open spec fn midnight_at(e: int, off: int, ymd: (int, int, int)) -> bool {
    -86400 < off < 86400 && civil(e + off) == (ymd.0, ymd.1, ymd.2, 0int, 0int, 0int)
}

/// The second `e` shows midnight at the start of the day `ymd` in some time zone less than
/// a day away from UTC.
pub open spec fn local_midnight(e: int, ymd: (int, int, int)) -> bool {
    exists|off: int| #[trigger] midnight_at(e, off, ymd)
}

/// Read back in the same time zone, the second that stands for midnight of a day with a
/// four-digit year is written as that day, `YYYY-MM-DD`.
pub proof fn lemma_due_round_trip(e: int, off: int, ymd: (int, int, int), t: Seq<char>)
    requires
        midnight_at(e, off, ymd),
        local_text(date_format(), e, off, t),
        0 <= ymd.0 <= 9999,
    ensures
        t == ymd_text(ymd.0, ymd.1, ymd.2),
{
}

proof fn lemma_digits_len(n: int, w: nat)
    ensures
        digits(n, w).len() == w,
    decreases w,
{
    if w > 0 {
        lemma_digits_len(n / 10, (w - 1) as nat);
    }
}

/// `10` to the power `w`.
pub open spec fn ten_pow(w: nat) -> int
    decreases w,
{
    if w == 0 {
        1
    } else {
        10 * ten_pow((w - 1) as nat)
    }
}

proof fn lemma_digits_injective(a: int, b: int, w: nat)
    requires
        0 <= a < ten_pow(w),
        0 <= b < ten_pow(w),
        digits(a, w) == digits(b, w),
    ensures
        a == b,
    decreases w,
{
    if w > 0 {
        let ca = ('0' as u8 + (a % 10) as u8) as char;
        let cb = ('0' as u8 + (b % 10) as u8) as char;
        assert(digits(a, w).last() == ca);
        assert(digits(b, w).last() == cb);
        assert(a % 10 == b % 10);
        assert(digits(a, w).drop_last() == digits(a / 10, (w - 1) as nat));
        assert(digits(b, w).drop_last() == digits(b / 10, (w - 1) as nat));
        lemma_digits_injective(a / 10, b / 10, (w - 1) as nat);
    }
}

/// Two real dates with the same `YYYY-MM-DD` text are the same date.
proof fn lemma_ymd_injective(y1: int, m1: int, d1: int, y2: int, m2: int, d2: int)
    requires
        real_date(y1, m1, d1),
        real_date(y2, m2, d2),
        ymd_text(y1, m1, d1) == ymd_text(y2, m2, d2),
    ensures
        y1 == y2 && m1 == m2 && d1 == d2,
{
    lemma_digits_len(y1, 4);
    lemma_digits_len(m1, 2);
    lemma_digits_len(d1, 2);
    lemma_digits_len(y2, 4);
    lemma_digits_len(m2, 2);
    lemma_digits_len(d2, 2);
    let t1 = ymd_text(y1, m1, d1);
    let t2 = ymd_text(y2, m2, d2);
    assert(t1.subrange(0, 4) == digits(y1, 4));
    assert(t2.subrange(0, 4) == digits(y2, 4));
    assert(t1.subrange(5, 7) == digits(m1, 2));
    assert(t2.subrange(5, 7) == digits(m2, 2));
    assert(t1.subrange(8, 10) == digits(d1, 2));
    assert(t2.subrange(8, 10) == digits(d2, 2));
    reveal_with_fuel(ten_pow, 5);
    lemma_digits_injective(y1, y2, 4);
    lemma_digits_injective(m1, m2, 2);
    lemma_digits_injective(d1, d2, 2);
}

/// `c` is an ASCII decimal digit.
pub open spec fn is_digit(c: char) -> bool {
    '0' <= c && c <= '9'
}

/// `t` has the shape `YYYY-MM-DD`: ten characters, `-` at 4 and 7, digits elsewhere.
pub open spec fn date_shape(t: Seq<char>) -> bool {
    &&& t.len() == 10
    &&& t[4] == '-' && t[7] == '-'
    &&& forall|i: int| 0 <= i < 10 && i != 4 && i != 7 ==> is_digit(#[trigger] t[i])
}

/// `t` has the shape `YYYY-MM-DD HH:MM`: sixteen characters, `-` at 4 and 7, a blank at
/// 10, `:` at 13, digits elsewhere.
pub open spec fn stamp_shape(t: Seq<char>) -> bool {
    &&& t.len() == 16
    &&& t[4] == '-' && t[7] == '-' && t[10] == ' ' && t[13] == ':'
    &&& forall|i: int|
        0 <= i < 16 && i != 4 && i != 7 && i != 10 && i != 13 ==> is_digit(#[trigger] t[i])
}

proof fn lemma_digits_are_digits(n: int, w: nat)
    ensures
        digits(n, w).len() == w,
        forall|i: int| 0 <= i < w ==> is_digit(#[trigger] digits(n, w)[i]),
    decreases w,
{
    if w > 0 {
        lemma_digits_are_digits(n / 10, (w - 1) as nat);
        let k = n % 10;
        assert(0 <= k < 10);
        let c = ('0' as u8 + k as u8) as char;
        assert(is_digit(c));
        assert(digits(n, w) == digits(n / 10, (w - 1) as nat).push(c));
    }
}

/// The due-date text of a second whose local year has four digits reads `YYYY-MM-DD`.
pub proof fn lemma_date_shape(e: int, off: int, t: Seq<char>)
    requires
        local_text(date_format(), e, off, t),
        0 <= civil(e + off).0 <= 9999,
    ensures
        date_shape(t),
{
    let c = civil(e + off);
    lemma_digits_are_digits(c.0, 4);
    lemma_digits_are_digits(c.1, 2);
    lemma_digits_are_digits(c.2, 2);
    let y = digits(c.0, 4);
    let m = digits(c.1, 2);
    let d = digits(c.2, 2);
    assert(t == y + seq!['-'] + m + seq!['-'] + d);
    assert forall|i: int| 0 <= i < 10 && i != 4 && i != 7 implies is_digit(#[trigger] t[i]) by {
        if i < 4 {
            assert(t[i] == y[i]);
        } else if i < 7 {
            assert(t[i] == m[i - 5]);
        } else {
            assert(t[i] == d[i - 8]);
        }
    }
}

/// The creation-time text of a second whose local year has four digits reads
/// `YYYY-MM-DD HH:MM`.
pub proof fn lemma_stamp_shape(e: int, off: int, t: Seq<char>)
    requires
        local_text(date_time_format(), e, off, t),
        0 <= civil(e + off).0 <= 9999,
    ensures
        stamp_shape(t),
{
    let c = civil(e + off);
    lemma_digits_are_digits(c.0, 4);
    lemma_digits_are_digits(c.1, 2);
    lemma_digits_are_digits(c.2, 2);
    lemma_digits_are_digits(c.3, 2);
    lemma_digits_are_digits(c.4, 2);
    assert(date_time_format().len() != date_format().len());
    let y = digits(c.0, 4);
    let m = digits(c.1, 2);
    let d = digits(c.2, 2);
    let h = digits(c.3, 2);
    let n = digits(c.4, 2);
    assert(t == y + seq!['-'] + m + seq!['-'] + d + seq![' '] + h + seq![':'] + n);
    assert forall|i: int|
        0 <= i < 16 && i != 4 && i != 7 && i != 10 && i != 13 implies is_digit(#[trigger] t[i]) by {
        if i < 4 {
            assert(t[i] == y[i]);
        } else if i < 7 {
            assert(t[i] == m[i - 5]);
        } else if i < 10 {
            assert(t[i] == d[i - 8]);
        } else if i < 13 {
            assert(t[i] == h[i - 11]);
        } else {
            assert(t[i] == n[i - 14]);
        }
    }
}

/// Under one time-zone offset, the due-date text of a second is the first ten characters
/// of its creation-time text (four-digit years).
pub proof fn lemma_date_is_prefix(e: int, off: int, date: Seq<char>, stamp: Seq<char>)
    requires
        local_text(date_format(), e, off, date),
        local_text(date_time_format(), e, off, stamp),
        0 <= civil(e + off).0 <= 9999,
    ensures
        date == stamp.take(10),
        stamp.len() == 16,
{
    let c = civil(e + off);
    lemma_digits_len(c.0, 4);
    lemma_digits_len(c.1, 2);
    lemma_digits_len(c.2, 2);
    lemma_digits_len(c.3, 2);
    lemma_digits_len(c.4, 2);
    assert(date_time_format().len() != date_format().len());
    assert(stamp.take(10) =~= date);
}

/// Midnight at the start of the day `d`.
pub fn midnight(d: CalendarDate) -> (r: WallClock)
    ensures
        r == (WallClock { year: d.year, month: d.month, day: d.day, hour: 0, minute: 0, second: 0 }),
{
    WallClock { year: d.year, month: d.month, day: d.day, hour: 0, minute: 0, second: 0 }
}

/// `epoch` in the machine's time zone written with `fmt` (the date or the date-and-time
/// format), or `?` when chrono cannot represent that second.
fn format_epoch(epoch: i64, fmt: &str) -> (r: String)
    requires
        fmt@ == date_format() || fmt@ == date_time_format(),
    ensures
        !(MIN_EPOCH <= epoch <= MAX_EPOCH) ==> r@ == seq!['?'],
        MIN_EPOCH <= epoch <= MAX_EPOCH ==> shows_local(fmt@, epoch as int, r@),
{
    match local_stamp(epoch, fmt) {
        Some((t, off)) => {
            assert(local_text(fmt@, epoch as int, off as int, t@));
            assert(shows_local(fmt@, epoch as int, t@));
            t
        },
        None => {
            let r = String::from_str("?");
            proof {
                reveal_strlit("?");
            }
            r
        },
    }
}

proof fn lemma_formats()
    ensures
        "%Y-%m-%d"@ == date_format(),
        "%Y-%m-%d %H:%M"@ == date_time_format(),
{
    reveal_strlit("%Y-%m-%d");
    reveal_strlit("%Y-%m-%d %H:%M");
    assert("%Y-%m-%d"@ =~= date_format());
    assert("%Y-%m-%d %H:%M"@ =~= date_time_format());
}

impl Todo {
    /// Creation time as local `YYYY-MM-DD HH:MM` (`?` when out of range).
    pub fn created_at_string(&self) -> (r: String)
        ensures
            !(MIN_EPOCH <= self.created_at <= MAX_EPOCH) ==> r@ == seq!['?'],
            MIN_EPOCH <= self.created_at <= MAX_EPOCH ==> shows_local(date_time_format(), self.created_at as int, r@),
    {
        proof {
            lemma_formats();
        }
        format_epoch(self.created_at, "%Y-%m-%d %H:%M")
    }

    /// Due date as local `YYYY-MM-DD`, when there is one (`?` when out of range).
    pub fn due_string(&self) -> (r: Option<String>)
        ensures
            self.due_at is None ==> r is None,
            self.due_at matches Some(d) ==> r matches Some(s) && (!(MIN_EPOCH <= d <= MAX_EPOCH)
                ==> s@ == seq!['?']) && (MIN_EPOCH <= d <= MAX_EPOCH ==> shows_local(date_format(), d as int, s@)),
    {
        proof {
            lemma_formats();
        }
        match self.due_at {
            Some(d) => {
                let t = format_epoch(d, "%Y-%m-%d");
                Some(t)
            },
            None => None,
        }
    }
}

/// Reads a due date typed as `YYYY-MM-DD` (surrounding blanks ignored) as the Unix second
/// of local midnight on that day. Blank input clears the date (`Ok(None)`).
pub fn parse_due(input: &str) -> (r: core::result::Result<Option<i64>, Error>)
    ensures
        trim_spec(input@).len() == 0 ==> r == Ok::<Option<i64>, Error>(None),
        trim_spec(input@).len() > 0 && parsed_date(trim_spec(input@), date_format()) is None ==> (
        r matches Err(Error::Invalid(m)) && m@ == "날짜 형식은 YYYY-MM-DD 여야 합니다"@),
        forall|y: int, m: int, d: int|
            real_date(y, m, d) && trim_spec(input@) == #[trigger] ymd_text(y, m, d) ==> parsed_date(
                trim_spec(input@),
                date_format(),
            ) == Some((y, m, d)),
        trim_spec(input@).len() > 0 && parsed_date(trim_spec(input@), date_format()) is Some ==> (
        r matches Ok(Some(e)) && local_midnight(e as int, parsed_date(trim_spec(input@), date_format())->0)) || (
        r matches Err(Error::Invalid(m)) && m@ == "변환할 수 없는 날짜"@),
{
    proof {
        lemma_formats();
    }
    let s = trim(input);
    if s.is_empty() {
        assert forall|y: int, m: int, d: int|
            real_date(y, m, d) && trim_spec(input@) == #[trigger] ymd_text(y, m, d) implies false by {
            lemma_digits_len(y, 4);
            lemma_digits_len(m, 2);
            lemma_digits_len(d, 2);
        }
        return Ok(None);
    }
    let date = match parse_date(s, "%Y-%m-%d") {
        Some(d) => d,
        None => {
            assert forall|y: int, m: int, d: int|
                real_date(y, m, d) && trim_spec(input@) == #[trigger] ymd_text(y, m, d) implies false by {
                assert(canonical_date(s@));
            }
            return Err(Error::Invalid(String::from_str("날짜 형식은 YYYY-MM-DD 여야 합니다")));
        },
    };
    assert forall|y: int, m: int, d: int|
        real_date(y, m, d) && trim_spec(input@) == #[trigger] ymd_text(y, m, d) implies parsed_date(
        trim_spec(input@),
        date_format(),
    ) == Some((y, m, d)) by {
        assert(canonical_date(s@));
        lemma_ymd_injective(y, m, d, date.year as int, date.month as int, date.day as int);
    }
    let start = midnight(date);
    let found = local_instant(start);
    let r = due_from_local(found);
    proof {
        if let Some((e, off)) = found {
            assert(civil(e + off) == wall_view(start));
            assert(midnight_at(e as int, off as int, date_view(date)));
            assert(parsed_date(trim_spec(input@), date_format()) == Some(date_view(date)));
            assert(midnight_at(e as int, off as int, parsed_date(trim_spec(input@), date_format())->0));
            assert(local_midnight(e as int, parsed_date(trim_spec(input@), date_format())->0));
        }
    }
    r
}

/// The due date given what the local clock answered for midnight of the typed day: the
/// second it found, or the "cannot convert" error when it found no single one.
pub fn due_from_local(found: Option<(i64, i32)>) -> (r: core::result::Result<Option<i64>, Error>)
    ensures
        found matches Some((e, off)) ==> r == Ok::<Option<i64>, Error>(Some(e)),
        found is None ==> (r matches Err(Error::Invalid(m)) && m@ == "변환할 수 없는 날짜"@),
{
    match found {
        Some((e, _)) => Ok(Some(e)),
        None => Err(Error::Invalid(String::from_str("변환할 수 없는 날짜"))),
    }
}

} // verus!
