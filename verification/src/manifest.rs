//! What a bundle says about itself: its project, the build it came from, and
//! the files it carries with their checksums.

use vstd::prelude::*;
use vstd::string::*;
use vstd::utf8::*;

use crate::order::{
    bytes_less, lemma_first_difference_decides, lemma_lex_irreflexive, lemma_lex_less_at,
    lemma_lex_total, lemma_lex_transitive, lex_less,
};
use crate::text::{
    decimal_value, digit_char, lemma_encode_utf8_concat, lemma_encode_utf8_injective,
};

verus! {

/// The version of the manifest's shape. It is raised on breaking changes
/// only; a new field with a default needs no new version.
pub const CURRENT_SCHEMA_VERSION: u32 = 1;

/// How the time of a build is written in the name of a release directory.
pub const TIMESTAMP_FORMAT: &'static str = "[year]-[month]-[day]T[hour]-[minute]-[second]Z";

/// The time of a build, as the calendar and the clock at `offset_seconds` from
/// UTC show it.
#[derive(Debug, Clone, Copy, PartialEq, Eq)]
pub struct BuildTime {
    pub year: i32,
    pub month: u8,
    pub day: u8,
    pub hour: u8,
    pub minute: u8,
    pub second: u8,
    pub nanosecond: u32,
    pub offset_seconds: i32,
}

/// A binary in the bundle.
#[derive(Debug, Clone)]
pub struct BinaryEntry {
    /// Path from the root of the bundle, such as "bin/myproj-api".
    pub path: String,
    /// SHA-256 of the contents in hexadecimal, checked when the bundle has been
    /// unpacked and again before the release becomes the current one.
    pub sha256: String,
    /// Unix mode bits, such as 0o755, given to the file when the bundle has
    /// been unpacked.
    pub mode: u32,
}

/// A systemd unit file in the bundle.
#[derive(Debug, Clone)]
pub struct UnitEntry {
    /// Name of the unit, such as "myproj-api.service".
    pub name: String,
    /// Path from the root of the bundle, such as "systemd/myproj-api.service".
    pub path: String,
    /// SHA-256 of the contents in hexadecimal, checked as that of a binary.
    pub sha256: String,
}

/// The manifest of a bundle.
#[derive(Debug, Clone)]
pub struct Manifest {
    pub schema_version: u32,
    /// The project that the bundle belongs to.
    pub project: String,
    /// The commit that the bundle was built from.
    pub git_sha: String,
    /// When the bundle was built.
    pub built_at: BuildTime,
    /// Free-form metadata, ascending by key, each key once. Nothing in a
    /// deploy depends on it.
    pub build_meta: Vec<(String, String)>,
    pub binaries: Vec<BinaryEntry>,
    pub units: Vec<UnitEntry>,
}

/// Whether `year` has a leap day.
pub open spec fn is_leap_year(year: int) -> bool {
    year % 4 == 0 && (year % 100 != 0 || year % 400 == 0)
}

/// The number of days in a month.
pub open spec fn days_in_month(year: int, month: int) -> int {
    if month == 2 {
        if is_leap_year(year) {
            29
        } else {
            28
        }
    } else if month == 4 || month == 6 || month == 9 || month == 11 {
        30
    } else {
        31
    }
}

/// A day of the calendar.
pub struct Day {
    pub year: int,
    pub month: int,
    pub day: int,
}

/// Whether a day exists.
pub open spec fn is_day(d: Day) -> bool {
    1 <= d.month <= 12 && 1 <= d.day <= days_in_month(d.year, d.month)
}

/// The day after `d`.
pub open spec fn day_after(d: Day) -> Day {
    if d.day < days_in_month(d.year, d.month) {
        Day { day: d.day + 1, ..d }
    } else if d.month < 12 {
        Day { month: d.month + 1, day: 1, ..d }
    } else {
        Day { year: d.year + 1, month: 1, day: 1 }
    }
}

/// The day before `d`.
pub open spec fn day_before(d: Day) -> Day {
    if d.day > 1 {
        Day { day: d.day - 1, ..d }
    } else if d.month > 1 {
        Day { month: d.month - 1, day: days_in_month(d.year, d.month - 1), ..d }
    } else {
        Day { year: d.year - 1, month: 12, day: 31 }
    }
}

/// The day that is `n` days after `d`, or before it where `n` is negative.
pub open spec fn days_later(d: Day, n: int) -> Day
    decreases
            if n < 0 {
                -n
            } else {
                n
            },
{
    if n == 0 {
        d
    } else if n < 0 {
        days_later(day_before(d), n + 1)
    } else {
        days_later(day_after(d), n - 1)
    }
}

/// How many days come before a year, counted from the first day of year 1.
pub open spec fn days_before_year(year: int) -> int {
    365 * (year - 1) + (year - 1) / 4 - (year - 1) / 100 + (year - 1) / 400
}

/// How many days of a year come before a month.
pub open spec fn days_before_month(year: int, month: int) -> int
    decreases month,
{
    if month <= 1 {
        0
    } else {
        days_before_month(year, month - 1) + days_in_month(year, month - 1)
    }
}

/// The number of a day, counted from the first day of year 1.
pub open spec fn day_number(d: Day) -> int {
    days_before_year(d.year) + days_before_month(d.year, d.month) + d.day - 1
}

/// The second that a time is in, counted from the start of year 1 in UTC.
pub open spec fn instant(t: BuildTime) -> int {
    86400 * day_number(t.date()) + t.clock() - t.offset_seconds
}

/// Whether the second of `a` comes before that of `b`, wherever their clocks
/// stand.
pub open spec fn earlier(a: BuildTime, b: BuildTime) -> bool {
    instant(a) < instant(b)
}

/// The time `t` as the calendar and the clock in UTC show it.
pub open spec fn utc(t: BuildTime) -> BuildTime {
    let seconds = t.clock() - t.offset_seconds;
    let date = days_later(t.date(), seconds / 86400);
    let clock = seconds % 86400;
    BuildTime {
        year: date.year as i32,
        month: date.month as u8,
        day: date.day as u8,
        hour: (clock / 3600) as u8,
        minute: (clock / 60 % 60) as u8,
        second: (clock % 60) as u8,
        nanosecond: t.nanosecond,
        offset_seconds: 0,
    }
}

/// A year has 366 days where it has a leap day, and 365 otherwise.
proof fn lemma_days_of_year(year: int)
    ensures
        days_before_year(year + 1) == days_before_year(year) + (if is_leap_year(year) {
            366int
        } else {
            365
        }),
        days_before_month(year, 12) + 31 == (if is_leap_year(year) {
            366int
        } else {
            365
        }),
{
    reveal_with_fuel(days_before_month, 13);
}

/// The day after has the next number.
proof fn lemma_day_after(d: Day)
    requires
        is_day(d),
    ensures
        is_day(day_after(d)),
        day_number(day_after(d)) == day_number(d) + 1,
        d.year <= day_after(d).year <= d.year + 1,
{
    lemma_days_of_year(d.year);
    assert(days_before_month(d.year, d.month + 1) == days_before_month(d.year, d.month)
        + days_in_month(d.year, d.month));
    assert(days_before_month(d.year + 1, 1) == 0);
}

/// The day before has the previous number.
proof fn lemma_day_before(d: Day)
    requires
        is_day(d),
    ensures
        is_day(day_before(d)),
        day_number(day_before(d)) == day_number(d) - 1,
        d.year - 1 <= day_before(d).year <= d.year,
{
    lemma_days_of_year(d.year - 1);
    assert(days_before_month(d.year, 1) == 0);
}

/// The day `n` days later has a number that is larger by `n`.
proof fn lemma_days_later(d: Day, n: int)
    requires
        is_day(d),
        -2 <= n <= 2,
    ensures
        is_day(days_later(d, n)),
        day_number(days_later(d, n)) == day_number(d) + n,
        d.year - 2 <= days_later(d, n).year <= d.year + 2,
{
    if n < 0 {
        let first = day_before(d);
        lemma_day_before(d);
        assert(days_later(d, n) == days_later(first, n + 1));
        if n == -2 {
            lemma_day_before(first);
            assert(days_later(first, -1) == days_later(day_before(first), 0));
        }
        assert(days_later(first, 0) == first);
    } else if n > 0 {
        let first = day_after(d);
        lemma_day_after(d);
        assert(days_later(d, n) == days_later(first, n - 1));
        if n == 2 {
            lemma_day_after(first);
            assert(days_later(first, 1) == days_later(day_after(first), 0));
        }
        assert(days_later(first, 0) == first);
    }
}

/// The time in UTC is on the calendar but for its year, and is the same
/// instant.
pub proof fn lemma_utc_is_same_instant(t: BuildTime)
    requires
        t.on_calendar(),
    ensures
        instant(utc(t)) == instant(t),
        utc(t).nanosecond == t.nanosecond,
        utc(t).offset_seconds == 0,
        is_day(utc(t).date()),
        utc(t).hour < 24,
        utc(t).minute < 60,
        utc(t).second < 60,
        t.year - 2 <= utc(t).year <= t.year + 2,
{
    let seconds = t.clock() - t.offset_seconds;
    lemma_days_later(t.date(), seconds / 86400);
    let date = days_later(t.date(), seconds / 86400);
    assert(utc(t).date() == date);
    let clock = seconds % 86400;
    assert(utc(t).clock() == clock);
}

/// The lengths of the months: February has 29 days in years that four divides,
/// but for those that a hundred divides and four hundred does not, and 28 in the
/// others.
pub proof fn lemma_months_have_their_lengths(year: int)
    ensures
        forall|month: int|
            month == 1 || month == 3 || month == 5 || month == 7 || month == 8 || month == 10
                || month == 12 ==> #[trigger] days_in_month(year, month) == 31,
        forall|month: int|
            month == 4 || month == 6 || month == 9 || month == 11 ==> #[trigger] days_in_month(
                year,
                month,
            ) == 30,
        year % 4 != 0 ==> days_in_month(year, 2) == 28,
        year % 4 == 0 && year % 100 != 0 ==> days_in_month(year, 2) == 29,
        year % 100 == 0 && year % 400 != 0 ==> days_in_month(year, 2) == 28,
        year % 400 == 0 ==> days_in_month(year, 2) == 29,
{
}

/// The months of a year ascend: a month is over before a later one starts.
proof fn lemma_months_ascend(year: int, m: int, n: int)
    requires
        1 <= m < n <= 12,
    ensures
        days_before_month(year, m) + days_in_month(year, m) <= days_before_month(year, n),
    decreases n,
{
    if m < n - 1 {
        lemma_months_ascend(year, m, n - 1);
    }
}

/// The days ascend with their numbers.
proof fn lemma_days_ascend(a: Day, b: Day)
    requires
        is_day(a),
        is_day(b),
        a.year < b.year || (a.year == b.year && a.month < b.month) || (a.year == b.year && a.month
            == b.month && a.day < b.day),
    ensures
        day_number(a) < day_number(b),
{
    if a.year < b.year {
        lemma_days_of_year(a.year);
        if a.month < 12 {
            lemma_months_ascend(a.year, a.month, 12);
        }
        assert(day_number(a) < days_before_year(a.year + 1));
        assert(days_before_year(a.year + 1) <= days_before_year(b.year));
        assert(0 <= days_before_month(b.year, b.month)) by {
            if b.month > 1 {
                lemma_months_ascend(b.year, 1, b.month);
            }
        }
    } else if a.month < b.month {
        lemma_months_ascend(a.year, a.month, b.month);
    }
}

/// Of two times in UTC, the calendar and the clock of the earlier one show an
/// earlier time.
proof fn lemma_earlier_shows(a: BuildTime, b: BuildTime)
    requires
        a.on_calendar(),
        b.on_calendar(),
        a.offset_seconds == 0,
        b.offset_seconds == 0,
        earlier(a, b),
    ensures
        shows_earlier(a, b),
{
    if !shows_earlier(a, b) && a.date() != b.date() {
        lemma_days_ascend(b.date(), a.date());
    }
}

/// Checks whether a year has a leap day.
fn leap_year(year: i32) -> (leap: bool)
    requires
        -20_000 <= year <= 20_000,
    ensures
        leap == is_leap_year(year as int),
{
    // A multiple of 400 keeps the leap years where they are.
    let year: i32 = year + 20_000;
    year % 4 == 0 && (year % 100 != 0 || year % 400 == 0)
}

/// The number of days in a month.
fn month_len(year: i32, month: u8) -> (days: u8)
    requires
        -20_000 <= year <= 20_000,
    ensures
        days == days_in_month(year as int, month as int),
{
    if month == 2 {
        if leap_year(year) {
            29
        } else {
            28
        }
    } else if month == 4 || month == 6 || month == 9 || month == 11 {
        30
    } else {
        31
    }
}

impl BuildTime {
    /// The day that the calendar shows.
    pub open spec fn date(&self) -> Day {
        Day { year: self.year as int, month: self.month as int, day: self.day as int }
    }

    /// The seconds of the day that the clock shows.
    pub open spec fn clock(&self) -> int {
        3600 * self.hour + 60 * self.minute + self.second
    }

    /// Whether the fields name a day of the calendar, a time of that day, and
    /// an offset that a clock can have.
    pub open spec fn on_calendar(&self) -> bool {
        &&& -9999 <= self.year <= 9999
        &&& is_day(self.date())
        &&& self.hour < 24
        &&& self.minute < 60
        &&& self.second < 60
        &&& -93599 <= self.offset_seconds <= 93599
    }

    /// Whether the fields name a time, and its year in UTC has four digits at
    /// most.
    pub open spec fn valid(&self) -> bool {
        self.on_calendar() && -9999 <= utc(*self).year <= 9999
    }

    /// Checks that the fields name a time, and its year in UTC has four digits
    /// at most.
    pub fn is_valid(&self) -> (valid: bool)
        ensures
            valid == self.valid(),
    {
        if self.year < -9999 || self.year > 9999 || self.month < 1 || self.month > 12 {
            return false;
        }
        if self.day < 1 || self.day > month_len(self.year, self.month) || self.hour >= 24
            || self.minute >= 60 || self.second >= 60 {
            return false;
        }
        if self.offset_seconds < -93599 || self.offset_seconds > 93599 {
            return false;
        }
        let year: i32 = self.to_utc().year;
        year >= -9999 && year <= 9999
    }

    /// The time as the calendar and the clock in UTC show it.
    pub fn to_utc(&self) -> (time: BuildTime)
        requires
            self.on_calendar(),
        ensures
            time == utc(*self),
    {
        let (mut year, mut month, mut day): (i32, u8, u8) = (self.year, self.month, self.day);
        let mut seconds: i32 = 3600 * self.hour as i32 + 60 * self.minute as i32
            + self.second as i32 - self.offset_seconds;
        let ghost all = seconds as int;
        let ghost mut date = self.date();
        proof {
            lemma_days_later(date, all / 86400);
        }
        while seconds < 0
            invariant
                -93599 <= all <= seconds <= 179998,
                all == seconds || all == seconds - 86400 || all == seconds - 2 * 86400,
                seconds != all ==> seconds < 86400,
                date == (Day { year: year as int, month: month as int, day: day as int }),
                is_day(date),
                -9999 - (seconds - all) / 86400 <= year <= 9999,
                days_later(date, seconds as int / 86400) == days_later(self.date(), all / 86400),
            decreases 179998 - seconds,
        {
            proof {
                lemma_day_before(date);
                date = day_before(date);
            }
            if day > 1 {
                day = day - 1;
            } else if month > 1 {
                month = month - 1;
                day = month_len(year, month);
            } else {
                year = year - 1;
                month = 12;
                day = 31;
            }
            seconds = seconds + 86400;
        }
        while seconds >= 86400
            invariant
                0 <= seconds <= 179998,
                seconds % 86400 == all % 86400,
                date == (Day { year: year as int, month: month as int, day: day as int }),
                is_day(date),
                -10001 <= year <= 10001 - seconds as int / 86400,
                days_later(date, seconds as int / 86400) == days_later(self.date(), all / 86400),
            decreases seconds,
        {
            proof {
                lemma_day_after(date);
                date = day_after(date);
            }
            if day < month_len(year, month) {
                day = day + 1;
            } else if month < 12 {
                month = month + 1;
                day = 1;
            } else {
                year = year + 1;
                month = 1;
                day = 1;
            }
            seconds = seconds - 86400;
        }
        assert(days_later(date, 0) == date);
        BuildTime {
            year,
            month,
            day,
            hour: (seconds / 3600) as u8,
            minute: (seconds / 60 % 60) as u8,
            second: (seconds % 60) as u8,
            nanosecond: self.nanosecond,
            offset_seconds: 0,
        }
    }
}

/// Two decimal digits.
pub open spec fn two_digits(n: nat) -> Seq<char> {
    seq![digit_char(n / 10 % 10), digit_char(n % 10)]
}

/// Four decimal digits, behind a minus sign where the year is negative.
pub open spec fn year_text(year: int) -> Seq<char> {
    if year < 0 {
        seq!['-'] + two_digits((-year / 100) as nat) + two_digits((-year % 100) as nat)
    } else {
        two_digits((year / 100) as nat) + two_digits((year % 100) as nat)
    }
}

/// The calendar and clock fields of `t` as [`TIMESTAMP_FORMAT`] lays them out.
pub open spec fn fields_text(t: BuildTime) -> Seq<char> {
    year_text(t.year as int) + seq!['-'] + two_digits(t.month as nat) + seq!['-'] + two_digits(
        t.day as nat,
    ) + seq!['T'] + two_digits(t.hour as nat) + seq!['-'] + two_digits(t.minute as nat) + seq!['-']
        + two_digits(t.second as nat) + seq!['Z']
}

/// The text of the time `t`, in UTC, as [`TIMESTAMP_FORMAT`] lays it out.
pub open spec fn calendar_text(t: BuildTime) -> Seq<char> {
    fields_text(utc(t))
}

/// Whether the calendar and clock of `a` show an earlier second than those of
/// `b`.
pub open spec fn shows_earlier(a: BuildTime, b: BuildTime) -> bool {
    if a.year != b.year {
        a.year < b.year
    } else if a.month != b.month {
        a.month < b.month
    } else if a.day != b.day {
        a.day < b.day
    } else if a.hour != b.hour {
        a.hour < b.hour
    } else if a.minute != b.minute {
        a.minute < b.minute
    } else {
        a.second < b.second
    }
}

/// Whether the first character in which `a` and `b` differ, within both, is
/// smaller in `a`.
spec fn ascends(a: Seq<char>, b: Seq<char>) -> bool {
    exists|n: int| #[trigger] ascends_at(a, b, n)
}

spec fn ascends_at(a: Seq<char>, b: Seq<char>, n: int) -> bool {
    &&& 0 <= n < a.len()
    &&& n < b.len()
    &&& a[n] < b[n]
    &&& forall|i: int| 0 <= i < n ==> a[i] == b[i]
}

/// Texts that ascend go on doing so, whatever follows.
proof fn lemma_ascends_extends(a: Seq<char>, b: Seq<char>, x: Seq<char>, y: Seq<char>)
    requires
        ascends(a, b),
    ensures
        ascends(a + x, b + y),
{
    let n = choose|n: int| #[trigger] ascends_at(a, b, n);
    assert(ascends_at(a + x, b + y, n));
}

/// Texts that ascend do so behind a common start.
proof fn lemma_ascends_behind(s: Seq<char>, x: Seq<char>, y: Seq<char>)
    requires
        ascends(x, y),
    ensures
        ascends(s + x, s + y),
{
    let n = choose|n: int| #[trigger] ascends_at(x, y, n);
    assert(ascends_at(s + x, s + y, n + s.len()));
}

/// Two digits ascend with the number.
proof fn lemma_two_digits_ascend(m: nat, n: nat)
    requires
        m < n < 100,
    ensures
        ascends(two_digits(m), two_digits(n)),
{
    if m / 10 < n / 10 {
        assert(ascends_at(two_digits(m), two_digits(n), 0));
    } else {
        assert(ascends_at(two_digits(m), two_digits(n), 1));
    }
}

/// One more field keeps the order of what has been written so far.
proof fn lemma_field_ascends(s: Seq<char>, t: Seq<char>, c: char, m: nat, n: nat)
    requires
        m < 100,
        n < 100,
    ensures
        ascends(s, t) || (s == t && m < n) ==> ascends(
            s + seq![c] + two_digits(m),
            t + seq![c] + two_digits(n),
        ),
{
    if ascends(s, t) {
        lemma_ascends_extends(s, t, seq![c], seq![c]);
        lemma_ascends_extends(s + seq![c], t + seq![c], two_digits(m), two_digits(n));
    } else if s == t && m < n {
        lemma_two_digits_ascend(m, n);
        lemma_ascends_behind(s + seq![c], two_digits(m), two_digits(n));
    }
}

/// The text of earlier fields ascends to that of later ones.
proof fn lemma_fields_text_ascends(a: BuildTime, b: BuildTime)
    requires
        a.on_calendar(),
        b.on_calendar(),
        a.year >= 0,
        b.year >= 0,
        shows_earlier(a, b),
    ensures
        ascends(fields_text(a), fields_text(b)),
{
    let ya = year_text(a.year as int);
    let yb = year_text(b.year as int);
    if a.year < b.year {
        let (ca, cb) = ((a.year / 100) as nat, (b.year / 100) as nat);
        if ca < cb {
            lemma_two_digits_ascend(ca, cb);
            lemma_ascends_extends(
                two_digits(ca),
                two_digits(cb),
                two_digits((a.year % 100) as nat),
                two_digits((b.year % 100) as nat),
            );
        } else {
            lemma_two_digits_ascend((a.year % 100) as nat, (b.year % 100) as nat);
            lemma_ascends_behind(
                two_digits(ca),
                two_digits((a.year % 100) as nat),
                two_digits((b.year % 100) as nat),
            );
        }
        assert(ascends(ya, yb));
    }
    lemma_field_ascends(ya, yb, '-', a.month as nat, b.month as nat);
    let ma = ya + seq!['-'] + two_digits(a.month as nat);
    let mb = yb + seq!['-'] + two_digits(b.month as nat);
    lemma_field_ascends(ma, mb, '-', a.day as nat, b.day as nat);
    let da = ma + seq!['-'] + two_digits(a.day as nat);
    let db = mb + seq!['-'] + two_digits(b.day as nat);
    lemma_field_ascends(da, db, 'T', a.hour as nat, b.hour as nat);
    let ha = da + seq!['T'] + two_digits(a.hour as nat);
    let hb = db + seq!['T'] + two_digits(b.hour as nat);
    lemma_field_ascends(ha, hb, '-', a.minute as nat, b.minute as nat);
    let na = ha + seq!['-'] + two_digits(a.minute as nat);
    let nb = hb + seq!['-'] + two_digits(b.minute as nat);
    lemma_field_ascends(na, nb, '-', a.second as nat, b.second as nat);
    let sa = na + seq!['-'] + two_digits(a.second as nat);
    let sb = nb + seq!['-'] + two_digits(b.second as nat);
    lemma_ascends_extends(sa, sb, seq!['Z'], seq!['Z']);
}

/// The text of the fields of a time is ASCII, is longer than two characters and
/// holds no slash.
proof fn lemma_fields_text_plain(t: BuildTime)
    requires
        t.on_calendar(),
    ensures
        is_ascii_chars(fields_text(t)),
        fields_text(t).len() > 2,
        forall|i: int| 0 <= i < fields_text(t).len() ==> fields_text(t)[i] != '/',
{
    let text = fields_text(t);
    assert forall|i: int| 0 <= i < text.len() implies '\0' <= #[trigger] text[i] <= '\u{7f}'
        && text[i] != '/' by {}
}

/// The text of a time is ASCII.
pub proof fn lemma_calendar_text_ascii(t: BuildTime)
    requires
        t.valid(),
    ensures
        is_ascii_chars(calendar_text(t)),
{
    lemma_utc_is_same_instant(t);
    lemma_fields_text_plain(utc(t));
}

/// The text of a time is longer than two characters and holds no slash.
pub proof fn lemma_calendar_text_no_slash(t: BuildTime)
    requires
        t.valid(),
    ensures
        calendar_text(t).len() > 2,
        forall|i: int| 0 <= i < calendar_text(t).len() ==> calendar_text(t)[i] != '/',
{
    lemma_utc_is_same_instant(t);
    lemma_fields_text_plain(utc(t));
}

/// Texts that start with a time sort by that time: what starts with an earlier
/// second comes first, whatever follows, and whatever clock the times were read
/// from. Years below 0 are left out, whose minus sign turns the order around.
pub proof fn lemma_calendar_text_sorts(a: BuildTime, b: BuildTime, x: Seq<char>, y: Seq<char>)
    requires
        a.valid(),
        b.valid(),
        utc(a).year >= 0,
        utc(b).year >= 0,
        earlier(a, b),
    ensures
        lex_less(encode_utf8(calendar_text(a) + x), encode_utf8(calendar_text(b) + y)),
{
    let ta = calendar_text(a);
    let tb = calendar_text(b);
    lemma_calendar_text_ascii(a);
    lemma_calendar_text_ascii(b);
    lemma_utc_is_same_instant(a);
    lemma_utc_is_same_instant(b);
    lemma_earlier_shows(utc(a), utc(b));
    lemma_fields_text_ascends(utc(a), utc(b));
    let n = choose|n: int| #[trigger] ascends_at(ta, tb, n);
    lemma_encode_utf8_concat(ta, x);
    lemma_encode_utf8_concat(tb, y);
    is_ascii_chars_encode_utf8(ta);
    is_ascii_chars_encode_utf8(tb);
    let ea = encode_utf8(ta + x);
    let eb = encode_utf8(tb + y);
    assert forall|i: int| 0 <= i <= n implies ea[i] == ta[i] as u8 && eb[i] == tb[i] as u8 by {
        assert(ea[i] == encode_utf8(ta)[i]);
        assert(eb[i] == encode_utf8(tb)[i]);
    }
    lemma_lex_less_at(ea, eb, n);
}

/// The time in UTC is the same second as the one that calendar and clock show,
/// told by the hours, the minutes, the seconds and the offset, on a day of the
/// calendar and at a time of that day. Its fraction of a second stays.
pub proof fn lemma_utc_shows_the_same_second(t: BuildTime)
    requires
        t.on_calendar(),
    ensures
        ({
            let u = utc(t);
            let day = Day { year: t.year as int, month: t.month as int, day: t.day as int };
            let utc_day = Day { year: u.year as int, month: u.month as int, day: u.day as int };
            &&& 86400 * day_number(utc_day) + 3600 * u.hour + 60 * u.minute + u.second == 86400
                * day_number(day) + 3600 * t.hour + 60 * t.minute + t.second - t.offset_seconds
            &&& 1 <= u.month <= 12
            &&& 1 <= u.day <= days_in_month(u.year as int, u.month as int)
            &&& u.hour < 24
            &&& u.minute < 60
            &&& u.second < 60
            &&& u.nanosecond == t.nanosecond
            &&& u.offset_seconds == 0
        }),
{
    lemma_utc_is_same_instant(t);
}

/// Two digits are the number that they were made of.
proof fn lemma_two_digits_value(n: nat)
    requires
        n < 100,
    ensures
        two_digits(n).len() == 2,
        decimal_value(two_digits(n)) == n,
{
    reveal_with_fuel(decimal_value, 3);
    let text = two_digits(n);
    assert(text.drop_last() =~= seq![digit_char(n / 10 % 10)]);
    assert(text.drop_last().drop_last() =~= Seq::<char>::empty());
}

/// Four digits are the number that they were made of.
proof fn lemma_four_digits_value(m: nat, n: nat)
    requires
        m < 100,
        n < 100,
    ensures
        decimal_value(two_digits(m) + two_digits(n)) == 100 * m + n,
{
    let text = two_digits(m) + two_digits(n);
    lemma_two_digits_value(m);
    assert(text.drop_last().drop_last() =~= two_digits(m));
    assert(text.drop_last().last() == digit_char(n / 10 % 10));
    assert(text.last() == digit_char(n % 10));
    reveal_with_fuel(decimal_value, 3);
}

/// The text of a time shows its year, month, day, hour, minute and second in
/// UTC, with leading zeros: four digits for the year, two for each of the
/// others, with what stands between them. Years below 0 are left out.
#[verifier::rlimit(30)]
pub proof fn lemma_text_shows_the_time(t: BuildTime)
    requires
        t.valid(),
        utc(t).year >= 0,
    ensures
        ({
            let text = calendar_text(t);
            let u = utc(t);
            &&& text.len() == 20
            &&& decimal_value(text.subrange(0, 4)) == u.year
            &&& text[4] == '-'
            &&& decimal_value(text.subrange(5, 7)) == u.month
            &&& text[7] == '-'
            &&& decimal_value(text.subrange(8, 10)) == u.day
            &&& text[10] == 'T'
            &&& decimal_value(text.subrange(11, 13)) == u.hour
            &&& text[13] == '-'
            &&& decimal_value(text.subrange(14, 16)) == u.minute
            &&& text[16] == '-'
            &&& decimal_value(text.subrange(17, 19)) == u.second
            &&& text[19] == 'Z'
        }),
{
    let text = calendar_text(t);
    let u = utc(t);
    lemma_utc_is_same_instant(t);
    let century = (u.year as int / 100) as nat;
    let rest = (u.year as int % 100) as nat;
    lemma_four_digits_value(century, rest);
    lemma_two_digits_value(u.month as nat);
    lemma_two_digits_value(u.day as nat);
    lemma_two_digits_value(u.hour as nat);
    lemma_two_digits_value(u.minute as nat);
    lemma_two_digits_value(u.second as nat);
    assert(text.subrange(0, 4) =~= two_digits(century) + two_digits(rest));
    assert(text.subrange(5, 7) =~= two_digits(u.month as nat));
    assert(text.subrange(8, 10) =~= two_digits(u.day as nat));
    assert(text.subrange(11, 13) =~= two_digits(u.hour as nat));
    assert(text.subrange(14, 16) =~= two_digits(u.minute as nat));
    assert(text.subrange(17, 19) =~= two_digits(u.second as nat));
}

/// The mode of a binary that the manifest gives none for.
pub fn default_exec_mode() -> (mode: u32)
    ensures
        mode == 0o755,
{
    0o755
}

/// Whether `entry` is what a manifest lists, where the mode may be left out.
pub open spec fn is_binary_entry(
    path: String,
    sha256: String,
    mode: Option<u32>,
    entry: BinaryEntry,
) -> bool {
    &&& entry.path == path
    &&& entry.sha256 == sha256
    &&& entry.mode == (match mode {
        Some(m) => m,
        None => 0o755,
    })
}

/// What a manifest lists of a binary is kept as it is, whatever mode that is.
/// Without a mode anybody may read and run the file, and its owner write it.
pub proof fn lemma_binary_is_kept_as_listed(
    path: String,
    sha256: String,
    mode: Option<u32>,
    entry: BinaryEntry,
)
    requires
        is_binary_entry(path, sha256, mode, entry),
    ensures
        entry.path@ == path@,
        entry.sha256@ == sha256@,
        mode is Some ==> Some(entry.mode) == mode,
        mode is None ==> entry.mode == 0o400 + 0o200 + 0o100 + 0o40 + 0o10 + 0o4 + 0o1,
{
}

/// A binary as a manifest lists it, where the mode may be left out.
pub fn binary_entry(path: String, sha256: String, mode: Option<u32>) -> (entry: BinaryEntry)
    ensures
        is_binary_entry(path, sha256, mode, entry),
{
    let mode: u32 = match mode {
        Some(m) => m,
        None => default_exec_mode(),
    };
    BinaryEntry { path, sha256, mode }
}

/// The metadata that `pairs` stand for: of two values for a key the later.
pub open spec fn meta_map(pairs: Seq<(String, String)>) -> Map<Seq<char>, Seq<char>>
    decreases pairs.len(),
{
    if pairs.len() == 0 {
        Map::empty()
    } else {
        meta_map(pairs.drop_last()).insert(pairs.last().0@, pairs.last().1@)
    }
}

/// Whether the keys ascend, so that no key comes twice.
pub open spec fn keys_ascend(pairs: Seq<(String, String)>) -> bool {
    forall|i: int, j: int|
        0 <= i < j < pairs.len() ==> lex_less(
            encode_utf8((#[trigger] pairs[i]).0@),
            encode_utf8((#[trigger] pairs[j]).0@),
        )
}

/// The metadata at a key is the value of the last pair with that key.
proof fn lemma_meta_map_at(pairs: Seq<(String, String)>, at: int)
    requires
        keys_ascend(pairs),
        0 <= at < pairs.len(),
    ensures
        meta_map(pairs).contains_key(pairs[at].0@),
        meta_map(pairs)[pairs[at].0@] == pairs[at].1@,
    decreases pairs.len(),
{
    if at < pairs.len() - 1 {
        lemma_meta_map_at(pairs.drop_last(), at);
        lemma_lex_irreflexive(encode_utf8(pairs[at].0@));
    }
}

/// Only the keys of the pairs have metadata.
proof fn lemma_meta_map_keys(pairs: Seq<(String, String)>, key: Seq<char>)
    ensures
        meta_map(pairs).contains_key(key) == (exists|i: int|
            0 <= i < pairs.len() && (#[trigger] pairs[i]).0@ == key),
    decreases pairs.len(),
{
    if pairs.len() > 0 {
        lemma_meta_map_keys(pairs.drop_last(), key);
        let shorter = pairs.drop_last();
        if meta_map(shorter).contains_key(key) {
            let i = choose|i: int| 0 <= i < shorter.len() && (#[trigger] shorter[i]).0@ == key;
            assert(pairs[i].0@ == key);
        }
        if exists|i: int| 0 <= i < pairs.len() && (#[trigger] pairs[i]).0@ == key {
            let i = choose|i: int| 0 <= i < pairs.len() && (#[trigger] pairs[i]).0@ == key;
            if i < pairs.len() - 1 {
                assert(shorter[i].0@ == key);
            }
        }
    }
}

/// Putting a pair at its place in ascending pairs adds it to the metadata.
proof fn lemma_meta_put(
    before: Seq<(String, String)>,
    after: Seq<(String, String)>,
    at: int,
    replaced: bool,
    pair: (String, String),
)
    requires
        keys_ascend(before),
        keys_ascend(after),
        0 <= at <= before.len(),
        replaced ==> at < before.len() && before[at].0@ == pair.0@ && after == before.update(
            at,
            pair,
        ),
        !replaced ==> after == before.insert(at, pair),
    ensures
        meta_map(after) == meta_map(before).insert(pair.0@, pair.1@),
{
    let wanted = meta_map(before).insert(pair.0@, pair.1@);
    assert(after[at] == pair);
    lemma_meta_map_at(after, at);
    assert forall|key: Seq<char>| #[trigger]
        meta_map(after).contains_key(key) == wanted.contains_key(key) && (wanted.contains_key(key)
            ==> meta_map(after)[key] == wanted[key]) by {
        lemma_meta_map_keys(after, key);
        lemma_meta_map_keys(before, key);
        if key != pair.0@ {
            if meta_map(before).contains_key(key) {
                let i = choose|i: int| 0 <= i < before.len() && (#[trigger] before[i]).0@ == key;
                let j = if replaced || i < at {
                    i
                } else {
                    i + 1
                };
                assert(after[j] == before[i]);
                lemma_meta_map_at(before, i);
                lemma_meta_map_at(after, j);
            }
            if meta_map(after).contains_key(key) {
                let j = choose|j: int| 0 <= j < after.len() && (#[trigger] after[j]).0@ == key;
                let i = if replaced || j < at {
                    j
                } else {
                    j - 1
                };
                assert(before[i] == after[j]);
            }
        }
    }
    assert(meta_map(after) =~= wanted);
}

/// Whether `meta` is `pairs` collected: ascending by key, with the metadata that
/// the pairs stand for.
pub open spec fn is_collected(
    pairs: Seq<(String, String)>,
    meta: Seq<(String, String)>,
) -> bool {
    keys_ascend(meta) && meta_map(meta) == meta_map(pairs)
}

/// The last pair with a key gives the metadata at that key.
proof fn lemma_last_pair_counts(pairs: Seq<(String, String)>, at: int)
    requires
        0 <= at < pairs.len(),
        forall|j: int| at < j < pairs.len() ==> (#[trigger] pairs[j]).0@ != pairs[at].0@,
    ensures
        meta_map(pairs).contains_key(pairs[at].0@),
        meta_map(pairs)[pairs[at].0@] == pairs[at].1@,
    decreases pairs.len(),
{
    if at < pairs.len() - 1 {
        let before = pairs.drop_last();
        assert(pairs[pairs.len() - 1].0@ != pairs[at].0@);
        assert forall|j: int| at < j < before.len() implies (#[trigger] before[j]).0@
            != before[at].0@ by {
            assert(pairs[j].0@ != pairs[at].0@);
        }
        lemma_last_pair_counts(before, at);
    }
}

/// Where a key comes in pairs, there is a last pair with it.
proof fn lemma_there_is_a_last(pairs: Seq<(String, String)>, key: Seq<char>) -> (at: int)
    requires
        meta_map(pairs).contains_key(key),
    ensures
        0 <= at < pairs.len(),
        pairs[at].0@ == key,
        forall|j: int| at < j < pairs.len() ==> (#[trigger] pairs[j]).0@ != key,
    decreases pairs.len(),
{
    if pairs.last().0@ == key {
        pairs.len() - 1
    } else {
        let before = pairs.drop_last();
        let at = lemma_there_is_a_last(before, key);
        assert forall|j: int| at < j < pairs.len() implies (#[trigger] pairs[j]).0@ != key by {
            if j < before.len() {
                assert(before[j].0@ != key);
            }
        }
        at
    }
}

/// Of the pairs that were given, the last for each key is kept, with its own
/// value, and nothing else is: the pair at `i`, if it is the last with its key,
/// is found at the first index that is given, and what is kept at `k` is the
/// pair at the second.
pub proof fn lemma_last_value_is_kept(
    pairs: Seq<(String, String)>,
    meta: Seq<(String, String)>,
    i: int,
    k: int,
) -> (found: (int, int))
    requires
        is_collected(pairs, meta),
    ensures
        0 <= i < pairs.len() && (forall|j: int|
            i < j < pairs.len() ==> (#[trigger] pairs[j]).0@ != pairs[i].0@) ==> {
            &&& 0 <= found.0 < meta.len()
            &&& meta[found.0].0@ == pairs[i].0@
            &&& meta[found.0].1@ == pairs[i].1@
        },
        0 <= k < meta.len() ==> {
            &&& 0 <= found.1 < pairs.len()
            &&& meta[k].0@ == pairs[found.1].0@
            &&& meta[k].1@ == pairs[found.1].1@
            &&& forall|j: int|
                found.1 < j < pairs.len() ==> (#[trigger] pairs[j]).0@ != pairs[found.1].0@
        },
{
    let mut first: int = 0;
    let mut second: int = 0;
    if 0 <= i < pairs.len() && (forall|j: int|
        i < j < pairs.len() ==> (#[trigger] pairs[j]).0@ != pairs[i].0@) {
        lemma_last_pair_counts(pairs, i);
        first = lemma_there_is_a_last(meta, pairs[i].0@);
        lemma_meta_map_at(meta, first);
    }
    if 0 <= k < meta.len() {
        lemma_meta_map_at(meta, k);
        second = lemma_there_is_a_last(pairs, meta[k].0@);
        lemma_last_pair_counts(pairs, second);
    }
    (first, second)
}

/// The keys that are kept ascend, byte by byte, so that each comes once.
pub proof fn lemma_kept_keys_ascend(
    pairs: Seq<(String, String)>,
    meta: Seq<(String, String)>,
    a: int,
    b: int,
)
    requires
        is_collected(pairs, meta),
        0 <= a < b < meta.len(),
    ensures
        ({
            let x = encode_utf8(meta[a].0@);
            let y = encode_utf8(meta[b].0@);
            exists|n: int|
                {
                    &&& 0 <= n <= x.len()
                    &&& n < y.len()
                    &&& #[trigger] x.take(n) == y.take(n)
                    &&& n < x.len() ==> x[n] < y[n]
                }
        }),
{
    lemma_first_difference_decides(encode_utf8(meta[a].0@), encode_utf8(meta[b].0@));
}

/// Collects metadata given as key and value: ascending by key, each key once,
/// with the value given last.
pub fn collect_meta(pairs: &Vec<(String, String)>) -> (meta: Vec<(String, String)>)
    ensures
        is_collected(pairs@, meta@),
{
    let mut meta: Vec<(String, String)> = Vec::new();
    let mut i: usize = 0;
    assert(pairs@.take(0) =~= Seq::empty());
    while i < pairs.len()
        invariant
            i <= pairs.len(),
            keys_ascend(meta@),
            meta_map(meta@) == meta_map(pairs@.take(i as int)),
        decreases pairs.len() - i,
    {
        let pair: (String, String) = (pairs[i].0.clone(), pairs[i].1.clone());
        let ghost key = encode_utf8(pair.0@);
        let mut at: usize = 0;
        while at < meta.len() && bytes_less(
            meta[at].0.as_str().as_bytes(),
            pair.0.as_str().as_bytes(),
        )
            invariant
                at <= meta.len(),
                key == encode_utf8(pair.0@),
                forall|j: int| 0 <= j < at ==> lex_less(encode_utf8((#[trigger] meta@[j]).0@), key),
            decreases meta.len() - at,
        {
            at = at + 1;
        }
        let replaced: bool = at < meta.len() && meta[at].0 == pair.0;
        let ghost before = meta@;
        let ghost given = pair;
        proof {
            if at < before.len() && !replaced {
                lemma_lex_total(key, encode_utf8(before[at as int].0@));
                if key == encode_utf8(before[at as int].0@) {
                    lemma_encode_utf8_injective(pair.0@, before[at as int].0@);
                }
                assert forall|j: int| at <= j < before.len() implies lex_less(
                    key,
                    encode_utf8((#[trigger] before[j]).0@),
                ) by {
                    if at < j {
                        lemma_lex_transitive(
                            key,
                            encode_utf8(before[at as int].0@),
                            encode_utf8(before[j].0@),
                        );
                    }
                }
            }
        }
        if replaced {
            meta.set(at, pair);
        } else {
            meta.insert(at, pair);
        }
        proof {
            assert(pairs@.take(i + 1).drop_last() =~= pairs@.take(i as int));
            assert(pairs@.take(i + 1).last().0@ == given.0@);
            assert(pairs@.take(i + 1).last().1@ == given.1@);
            assert(keys_ascend(meta@));
            lemma_meta_put(before, meta@, at as int, replaced, given);
        }
        i = i + 1;
    }
    assert(pairs@.take(pairs@.len() as int) =~= pairs@);
    meta
}

} // verus!
