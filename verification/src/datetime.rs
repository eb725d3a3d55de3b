//! Calendar dates, times of day and spans of time, in the proleptic Gregorian
//! calendar without time zones, as chrono's `NaiveDate`, `NaiveDateTime` and
//! `TimeDelta` hold them. chrono does the calendar work; this module states it.
use vstd::prelude::*;

use chrono::{Datelike, Timelike};

verus! {

/// The earliest year chrono represents.
pub const MIN_YEAR: i32 = -262143;

/// The latest year chrono represents.
pub const MAX_YEAR: i32 = 262142;

/// The day number (days since 1970-01-01) of January 1 of `MIN_YEAR`, the
/// earliest date chrono represents.
pub const MIN_DAY: i64 = -96465292;

/// A calendar date.
#[derive(Clone, Copy, Debug, PartialEq, Eq, Structural)]
pub struct Date {
    pub year: i32,
    pub month: u32,
    pub day: u32,
}

/// A date and a time of day. `nanosecond` reaches past 999_999_999 only during a
/// leap second, which chrono shows as second 60.
#[derive(Clone, Copy, Debug, PartialEq, Eq, Structural)]
pub struct DateTime {
    pub year: i32,
    pub month: u32,
    pub day: u32,
    pub hour: u32,
    pub minute: u32,
    pub second: u32,
    pub nanosecond: u32,
}

/// Leap years: divisible by 4, except centuries not divisible by 400.
pub open spec fn is_leap_year(y: int) -> bool {
    (y % 4 == 0 && y % 100 != 0) || y % 400 == 0
}

/// The number of days of month `m` of year `y`.
pub open spec fn days_in_month(y: int, m: int) -> int {
    if m == 2 {
        if is_leap_year(y) {
            29
        } else {
            28
        }
    } else if m == 4 || m == 6 || m == 9 || m == 11 {
        30
    } else {
        31
    }
}

/// A date chrono can represent.
pub open spec fn valid_date(d: Date) -> bool {
    &&& MIN_YEAR <= d.year <= MAX_YEAR
    &&& 1 <= d.month <= 12
    &&& 1 <= d.day <= days_in_month(d.year as int, d.month as int)
}

/// A date and time chrono can represent.
pub open spec fn valid_datetime(t: DateTime) -> bool {
    &&& valid_date(date_of(t))
    &&& t.hour < 24
    &&& t.minute < 60
    &&& t.second < 60
    &&& (t.nanosecond < 1_000_000_000 || (t.second == 59 && t.nanosecond < 2_000_000_000))
}

/// The date of a date and time.
pub open spec fn date_of(t: DateTime) -> Date {
    Date { year: t.year, month: t.month, day: t.day }
}

/// The number of leap years from year 0 up to, not including, year `y`
/// (negative for negative `y`).
pub open spec fn leap_years_before(y: int) -> int {
    (y + 3) / 4 - (y + 99) / 100 + (y + 399) / 400
}

/// The number of days of year `y` before month `m`.
pub open spec fn days_before_month(y: int, m: int) -> int {
    let base: int = if m == 1 {
        0
    } else if m == 2 {
        31
    } else if m == 3 {
        59
    } else if m == 4 {
        90
    } else if m == 5 {
        120
    } else if m == 6 {
        151
    } else if m == 7 {
        181
    } else if m == 8 {
        212
    } else if m == 9 {
        243
    } else if m == 10 {
        273
    } else if m == 11 {
        304
    } else {
        334
    };
    if m > 2 && is_leap_year(y) {
        base + 1
    } else {
        base
    }
}

/// Days since 1970-01-01 (negative before it).
pub open spec fn day_number(d: Date) -> int {
    365 * d.year + leap_years_before(d.year as int) + days_before_month(d.year as int, d.month as int)
        + d.day - 1 - 719528
}

/// The number of days of year `y`.
pub open spec fn days_in_year(y: int) -> int {
    if is_leap_year(y) {
        366
    } else {
        365
    }
}

/// The day number of January 1 of year `y`.
pub open spec fn year_start(y: int) -> int {
    365 * y + leap_years_before(y) - 719528
}

/// Each year starts the length of the previous year after it.
proof fn lemma_year_step(y: int)
    ensures
        year_start(y + 1) == year_start(y) + days_in_year(y),
{
    lemma_div_step(y, 4);
    lemma_div_step(y, 100);
    lemma_div_step(y, 400);
    let a: int = if y % 4 == 0 { 1 } else { 0 };
    let b: int = if y % 100 == 0 { 1 } else { 0 };
    let c: int = if y % 400 == 0 { 1 } else { 0 };
    assert(leap_years_before(y + 1) - leap_years_before(y) == a - b + c);
    assert(a - b + c == if is_leap_year(y) { 1int } else { 0int }) by {
        if y % 400 == 0 {
            assert(y % 100 == 0) by (nonlinear_arith)
                requires
                    y % 400 == 0,
            ;
            assert(y % 4 == 0) by (nonlinear_arith)
                requires
                    y % 400 == 0,
            ;
        } else if y % 100 == 0 {
            assert(y % 4 == 0) by (nonlinear_arith)
                requires
                    y % 100 == 0,
            ;
        }
    }
}

/// Counting multiples of `c`: one more of them is passed at `y` exactly when `c`
/// divides `y`.
proof fn lemma_div_step(y: int, c: int)
    requires
        c > 0,
    ensures
        (y + c) / c - (y + c - 1) / c == if y % c == 0 { 1int } else { 0int },
{
    vstd::arithmetic::div_mod::lemma_fundamental_div_mod(y, c);
    let q = y / c;
    let r = y % c;
    assert(0 <= r < c);
    assert(y == q * c + r) by (nonlinear_arith)
        requires
            y == c * (y / c) + y % c,
            q == y / c,
            r == y % c,
    ;
    assert((q + 1) * c == q * c + c) by (nonlinear_arith);
    assert((y + c) / c == q + 1) by {
        vstd::arithmetic::div_mod::lemma_fundamental_div_mod_converse(y + c, c, q + 1, r);
    }
    if r == 0 {
        assert((y + c - 1) / c == q) by {
            vstd::arithmetic::div_mod::lemma_fundamental_div_mod_converse(y + c - 1, c, q, c - 1);
        }
    } else {
        assert((y + c - 1) / c == q + 1) by {
            vstd::arithmetic::div_mod::lemma_fundamental_div_mod_converse(y + c - 1, c, q + 1, r - 1);
        }
    }
}

/// A year ends no later than a later year starts.
proof fn lemma_year_order(y1: int, y2: int)
    requires
        y1 < y2,
    ensures
        year_start(y1) + days_in_year(y1) <= year_start(y2),
    decreases y2 - y1,
{
    lemma_year_step(y1);
    if y1 + 1 < y2 {
        lemma_year_order(y1 + 1, y2);
    }
}

/// A month ends no later than a later month of the same year starts.
proof fn lemma_month_order(y: int, m1: int, m2: int)
    requires
        1 <= m1 < m2 <= 12,
    ensures
        days_before_month(y, m1) + days_in_month(y, m1) <= days_before_month(y, m2),
{
}

/// The day number of a date splits into the start of its year and its day of
/// the year, which lies within the year.
proof fn lemma_day_of_year(d: Date)
    requires
        valid_date(d),
    ensures
        day_number(d) == year_start(d.year as int) + days_before_month(d.year as int, d.month as int)
            + d.day - 1,
        0 <= days_before_month(d.year as int, d.month as int) + d.day - 1 < days_in_year(
            d.year as int,
        ),
{
    if d.month < 12 {
        lemma_month_order(d.year as int, d.month as int, 12);
    }
}

/// Different dates have different day numbers.
pub proof fn lemma_day_number_injective(d1: Date, d2: Date)
    requires
        valid_date(d1),
        valid_date(d2),
        day_number(d1) == day_number(d2),
    ensures
        d1 == d2,
{
    lemma_day_of_year(d1);
    lemma_day_of_year(d2);
    if d1.year < d2.year {
        lemma_year_order(d1.year as int, d2.year as int);
    } else if d2.year < d1.year {
        lemma_year_order(d2.year as int, d1.year as int);
    } else if d1.month < d2.month {
        lemma_month_order(d1.year as int, d1.month as int, d2.month as int);
    } else if d2.month < d1.month {
        lemma_month_order(d1.year as int, d2.month as int, d1.month as int);
    }
}

/// Dates chrono represents have day numbers from `min_day` to `max_day`.
pub proof fn lemma_day_number_range(d: Date)
    requires
        valid_date(d),
    ensures
        min_day() <= day_number(d) <= max_day(),
{
    let lo = Date { year: MIN_YEAR, month: 1, day: 1 };
    let hi = Date { year: MAX_YEAR, month: 12, day: 31 };
    lemma_day_of_year(d);
    lemma_day_of_year(lo);
    lemma_day_of_year(hi);
    if MIN_YEAR < d.year {
        lemma_year_order(MIN_YEAR as int, d.year as int);
    }
    if d.year < MAX_YEAR {
        lemma_year_order(d.year as int, MAX_YEAR as int);
    }
}

/// Different whole-second dates and times have different timestamps.
pub proof fn lemma_timestamp_injective(t1: DateTime, t2: DateTime)
    requires
        valid_datetime(t1),
        valid_datetime(t2),
        t1.nanosecond == t2.nanosecond,
        timestamp(t1) == timestamp(t2),
    ensures
        t1 == t2,
{
    assert(day_number(date_of(t1)) == day_number(date_of(t2)));
    lemma_day_number_injective(date_of(t1), date_of(t2));
}

/// Dates and times chrono represents have timestamps from `min_timestamp` to
/// `max_timestamp`.
pub proof fn lemma_timestamp_range(t: DateTime)
    requires
        valid_datetime(t),
    ensures
        min_timestamp() <= timestamp(t) <= max_timestamp(),
{
    lemma_day_number_range(date_of(t));
}

/// The day of the week, counted from Monday as 0; 1970-01-01 was a Thursday.
pub open spec fn weekday(d: Date) -> int {
    (day_number(d) + 3) % 7
}

/// Months since January of year 0.
pub open spec fn month_index(d: Date) -> int {
    d.year * 12 + d.month - 1
}

/// Seconds since midnight.
pub open spec fn seconds_of_day(t: DateTime) -> int {
    t.hour * 3600 + t.minute * 60 + t.second
}

/// Seconds since 1970-01-01 00:00:00, leap seconds not counted.
pub open spec fn timestamp(t: DateTime) -> int {
    day_number(date_of(t)) * 86400 + seconds_of_day(t)
}

/// The timestamp of the earliest date and time chrono represents.
pub open spec fn min_timestamp() -> int {
    day_number(Date { year: MIN_YEAR, month: 1, day: 1 }) * 86400
}

/// The timestamp of the last second of the latest date chrono represents.
pub open spec fn max_timestamp() -> int {
    day_number(Date { year: MAX_YEAR, month: 12, day: 31 }) * 86400 + 86399
}

/// The time from `b` to `a` in nanoseconds, as chrono counts it: a leap second
/// between the two counts once.
pub open spec fn duration_ns(a: DateTime, b: DateTime) -> int {
    let sa = seconds_of_day(a);
    let sb = seconds_of_day(b);
    let adj = if sa > sb && b.nanosecond >= 1_000_000_000 {
        1int
    } else if sa < sb && a.nanosecond >= 1_000_000_000 {
        -1int
    } else {
        0int
    };
    (day_number(date_of(a)) - day_number(date_of(b))) * 86_400_000_000_000 + (sa - sb + adj)
        * 1_000_000_000 + (a.nanosecond - b.nanosecond)
}

/// `a` comes strictly before `b`: compared by date, then by time of day.
pub open spec fn earlier(a: DateTime, b: DateTime) -> bool {
    ||| a.year < b.year
    ||| a.year == b.year && a.month < b.month
    ||| a.year == b.year && a.month == b.month && a.day < b.day
    ||| a.year == b.year && a.month == b.month && a.day == b.day && a.hour < b.hour
    ||| a.year == b.year && a.month == b.month && a.day == b.day && a.hour == b.hour && a.minute
        < b.minute
    ||| a.year == b.year && a.month == b.month && a.day == b.day && a.hour == b.hour && a.minute
        == b.minute && a.second < b.second
    ||| a.year == b.year && a.month == b.month && a.day == b.day && a.hour == b.hour && a.minute
        == b.minute && a.second == b.second && a.nanosecond < b.nanosecond
}

/// Midnight at the start of `d`.
pub open spec fn midnight_of(d: Date) -> DateTime {
    DateTime { year: d.year, month: d.month, day: d.day, hour: 0, minute: 0, second: 0, nanosecond: 0 }
}

/// The character of decimal digit `d`.
pub open spec fn digit_char(d: int) -> char {
    (48 + d) as char
}

/// The decimal digits of `n`, without leading zeros.
pub open spec fn digits(n: nat) -> Seq<char>
    decreases n,
{
    if n < 10 {
        seq![digit_char(n as int)]
    } else {
        digits(n / 10).push(digit_char((n % 10) as int))
    }
}

/// `s` preceded by zeros up to `w` characters.
pub open spec fn zero_pad(s: Seq<char>, w: int) -> Seq<char> {
    Seq::new(if s.len() < w { (w - s.len()) as nat } else { 0 }, |_i: int| '0') + s
}

/// `n` in decimal, with a `-` when negative.
pub open spec fn int_text(n: int) -> Seq<char> {
    if n < 0 {
        seq!['-'] + digits((-n) as nat)
    } else {
        digits(n as nat)
    }
}

/// A year as chrono writes it: four digits for years 0 to 9999, else a sign and at
/// least four digits.
pub open spec fn year_text(y: int) -> Seq<char> {
    if 0 <= y <= 9999 {
        zero_pad(digits(y as nat), 4)
    } else if y < 0 {
        seq!['-'] + zero_pad(digits((-y) as nat), 4)
    } else {
        seq!['+'] + zero_pad(digits(y as nat), 4)
    }
}

/// `n` as two digits.
pub open spec fn two_digits(n: int) -> Seq<char> {
    zero_pad(digits(n as nat), 2)
}

/// A fraction of a second as chrono writes it: nothing when zero, else a point and
/// three, six or nine digits, the fewest that hold it exactly.
pub open spec fn fraction_text(nano: int) -> Seq<char> {
    if nano == 0 {
        Seq::empty()
    } else if nano % 1_000_000 == 0 {
        seq!['.'] + zero_pad(digits((nano / 1_000_000) as nat), 3)
    } else if nano % 1_000 == 0 {
        seq!['.'] + zero_pad(digits((nano / 1_000) as nat), 6)
    } else {
        seq!['.'] + zero_pad(digits(nano as nat), 9)
    }
}

/// A date as chrono writes it: `YYYY-MM-DD`.
pub open spec fn date_text(d: Date) -> Seq<char> {
    year_text(d.year as int) + seq!['-'] + two_digits(d.month as int) + seq!['-'] + two_digits(
        d.day as int,
    )
}

/// A date and time as chrono writes it: `YYYY-MM-DD HH:MM:SS`, then the fraction
/// of the second if any; a leap second shows as second 60.
pub open spec fn datetime_text(t: DateTime) -> Seq<char> {
    let (sec, nano) = if t.nanosecond >= 1_000_000_000 {
        (t.second + 1, t.nanosecond - 1_000_000_000)
    } else {
        (t.second as int, t.nanosecond as int)
    };
    date_text(date_of(t)) + seq![' '] + two_digits(t.hour as int) + seq![':'] + two_digits(
        t.minute as int,
    ) + seq![':'] + two_digits(sec) + fraction_text(nano)
}

/// An ASCII decimal digit.
pub open spec fn is_digit(c: char) -> bool {
    48 <= c as int <= 57
}

/// A date and time whose text chrono reads back with the log format: whole
/// seconds, a leap second (shown as second 60) included.
pub open spec fn plain_datetime(t: DateTime) -> bool {
    valid_datetime(t) && (t.nanosecond == 0 || t.nanosecond == 1_000_000_000)
}

/// A character of the text of a date and time: a digit, a sign, `-`, ` ` or
/// `:`.
pub open spec fn datetime_char(c: char) -> bool {
    is_digit(c) || c == '-' || c == '+' || c == ' ' || c == ':'
}

/// Decimal digits are digit characters, one more per power of ten.
proof fn lemma_digits(n: nat)
    ensures
        forall|i: int| 0 <= i < digits(n).len() ==> is_digit(#[trigger] digits(n)[i]),
        1 <= digits(n).len(),
        n < 100 ==> digits(n).len() <= 2,
        n < 1000 ==> digits(n).len() <= 3,
        n < 10000 ==> digits(n).len() <= 4,
    decreases n,
{
    if n >= 10 {
        lemma_digits(n / 10);
        let p = digits(n / 10);
        assert forall|i: int| 0 <= i < digits(n).len() implies is_digit(#[trigger] digits(n)[i]) by {
            if i < p.len() {
                assert(digits(n)[i] == p[i]);
            }
        }
    }
}

/// Zero-padding digits gives digit characters, at least `w` of them.
proof fn lemma_zero_pad_digits(n: nat, w: int)
    requires
        w >= 0,
    ensures
        zero_pad(digits(n), w).len() == if digits(n).len() < w {
            w
        } else {
            digits(n).len() as int
        },
        forall|i: int|
            0 <= i < zero_pad(digits(n), w).len() ==> is_digit(#[trigger] zero_pad(digits(n), w)[i]),
{
    lemma_digits(n);
    let z = zero_pad(digits(n), w);
    let k = z.len() - digits(n).len();
    assert forall|i: int| 0 <= i < z.len() implies is_digit(#[trigger] z[i]) by {
        if i >= k {
            assert(z[i] == digits(n)[i - k]);
        }
    }
}

/// The text of a year: a digit or a sign first, digits after, at least four
/// characters.
proof fn lemma_year_text(y: int)
    ensures
        year_text(y).len() >= 4,
        is_digit(year_text(y)[0]) || year_text(y)[0] == '-' || year_text(y)[0] == '+',
        forall|i: int| 0 < i < year_text(y).len() ==> is_digit(#[trigger] year_text(y)[i]),
{
    if 0 <= y <= 9999 {
        lemma_zero_pad_digits(y as nat, 4);
    } else {
        let m: nat = if y < 0 { (-y) as nat } else { y as nat };
        lemma_zero_pad_digits(m, 4);
        let z = zero_pad(digits(m), 4);
        assert forall|i: int| 0 < i < year_text(y).len() implies is_digit(#[trigger] year_text(y)[i]) by {
            assert(year_text(y)[i] == z[i - 1]);
        }
    }
}

/// The text of a plain date and time: at least 19 characters, each a digit,
/// sign, `-`, ` ` or `:`, starting with a digit or a sign and ending with a
/// digit; its one space stands nine characters before the end and a digit
/// right after it.
pub proof fn lemma_datetime_text_shape(t: DateTime)
    requires
        plain_datetime(t),
    ensures
        datetime_text(t).len() >= 19,
        forall|i: int| 0 <= i < datetime_text(t).len() ==> datetime_char(#[trigger] datetime_text(t)[i]),
        forall|i: int|
            0 <= i < datetime_text(t).len() && #[trigger] datetime_text(t)[i] == ' ' ==> i
                == datetime_text(t).len() - 9,
        datetime_text(t)[datetime_text(t).len() - 9] == ' ',
        is_digit(datetime_text(t)[datetime_text(t).len() - 8]),
        is_digit(datetime_text(t)[datetime_text(t).len() - 1]),
        is_digit(datetime_text(t)[0]) || datetime_text(t)[0] == '-' || datetime_text(t)[0] == '+',
{
    lemma_year_text(t.year as int);
    lemma_zero_pad_digits(t.month as nat, 2);
    lemma_zero_pad_digits(t.day as nat, 2);
    lemma_zero_pad_digits(t.hour as nat, 2);
    lemma_zero_pad_digits(t.minute as nat, 2);
    let sec: int = if t.nanosecond >= 1_000_000_000 { t.second + 1 } else { t.second as int };
    lemma_zero_pad_digits(sec as nat, 2);
    lemma_digits(t.month as nat);
    lemma_digits(t.day as nat);
    lemma_digits(t.hour as nat);
    lemma_digits(t.minute as nat);
    lemma_digits(sec as nat);
    let y = year_text(t.year as int);
    let mo = two_digits(t.month as int);
    let d = two_digits(t.day as int);
    let h = two_digits(t.hour as int);
    let mi = two_digits(t.minute as int);
    let se = two_digits(sec);
    let x = datetime_text(t);
    let n: int = y.len() as int;
    assert(fraction_text(0) =~= Seq::<char>::empty());
    assert(x =~= y + seq!['-'] + mo + seq!['-'] + d + seq![' '] + h + seq![':'] + mi + seq![':'] + se);
    assert(x.len() == n + 15);
    assert forall|i: int| 0 <= i < x.len() implies datetime_char(#[trigger] x[i]) && (x[i] == ' '
        ==> i == n + 6) by {
        if i < n {
            assert(x[i] == y[i]);
        } else if i == n || i == n + 3 || i == n + 6 || i == n + 9 || i == n + 12 {
        } else if i < n + 3 {
            assert(x[i] == mo[i - n - 1]);
        } else if i < n + 6 {
            assert(x[i] == d[i - n - 4]);
        } else if i < n + 9 {
            assert(x[i] == h[i - n - 7]);
        } else if i < n + 12 {
            assert(x[i] == mi[i - n - 10]);
        } else {
            assert(x[i] == se[i - n - 13]);
        }
    }
    assert(x[n + 7] == h[0]);
    assert(x[n + 14] == se[1]);
    assert(x[0] == y[0]);
}

/// The format of dates and times in the log.
pub open spec fn log_datetime_format() -> Seq<char> {
    seq!['%', 'Y', '-', '%', 'm', '-', '%', 'd', ' ', '%', 'H', ':', '%', 'M', ':', '%', 'S']
}

/// What chrono's `NaiveDateTime::parse_from_str` reads from `s` with format `fmt`.
pub uninterp spec fn chrono_parse(s: Seq<char>, fmt: Seq<char>) -> Option<DateTime>;

/// The current local date and time (chrono's `Local::now().naive_local()`).
/// Only its validity is stated: the value depends on the clock.
#[verifier::external_body]
pub(crate) fn now() -> (r: DateTime)
    ensures
        valid_datetime(r),
{
    let t = chrono::Local::now().naive_local();
    DateTime {
        year: t.year(),
        month: t.month(),
        day: t.day(),
        hour: t.hour(),
        minute: t.minute(),
        second: t.second(),
        nanosecond: t.nanosecond(),
    }
}

/// chrono's `NaiveDateTime::parse_from_str`: its result is named `chrono_parse`;
/// what it reads is always a valid date and time, and with the log format it reads
/// back the text of any date and time without a fraction of a second: a year
/// outside 0 to 9999 is written with its sign, which `%Y` reads back, and a leap
/// second is written as second 60, which `%S` reads back as one.
#[verifier::external_body]
pub(crate) fn parse_datetime(s: &str, fmt: &str) -> (r: Result<DateTime, chrono::format::ParseError>)
    ensures
        match r {
            Ok(t) => chrono_parse(s@, fmt@) == Some(t) && valid_datetime(t),
            Err(_) => chrono_parse(s@, fmt@) is None,
        },
        forall|t: DateTime|
            #![trigger datetime_text(t)]
            plain_datetime(t) && s@ == datetime_text(t)
                && fmt@ == log_datetime_format() ==> r is Ok && r->Ok_0 == t,
{
    let t: chrono::NaiveDateTime = chrono::NaiveDateTime::parse_from_str(s, fmt)?;
    Ok(DateTime {
        year: t.year(),
        month: t.month(),
        day: t.day(),
        hour: t.hour(),
        minute: t.minute(),
        second: t.second(),
        nanosecond: t.nanosecond(),
    })
}

/// chrono's `Display` of `NaiveDateTime`.
#[verifier::external_body]
pub(crate) fn format_datetime(t: &DateTime) -> (r: String)
    requires
        valid_datetime(*t),
    ensures
        r@ == datetime_text(*t),
{
    let d = chrono::NaiveDate::from_ymd_opt(t.year, t.month, t.day).unwrap();
    let dt = d.and_hms_nano_opt(t.hour, t.minute, t.second, t.nanosecond).unwrap();
    format!("{}", dt)
}

/// chrono's `NaiveDate::format("%Y-%m")`, written out: the year as in a date,
/// a `-` and the month as two digits.
#[verifier::external_body]
pub(crate) fn format_year_month(d: &Date) -> (r: String)
    requires
        valid_date(*d),
    ensures
        r@ == year_text(d.year as int) + seq!['-'] + two_digits(d.month as int),
{
    let nd = chrono::NaiveDate::from_ymd_opt(d.year, d.month, d.day).unwrap();
    nd.format("%Y-%m").to_string()
}

/// chrono's day of the week (`NaiveDate::weekday`), counted from Monday as 0
/// (`Weekday::num_days_from_monday`).
#[verifier::external_body]
pub(crate) fn weekday_from_monday(d: &Date) -> (r: u32)
    requires
        valid_date(*d),
    ensures
        r == weekday(*d),
{
    let nd = chrono::NaiveDate::from_ymd_opt(d.year, d.month, d.day).unwrap();
    nd.weekday().num_days_from_monday()
}

/// The day number of the earliest date chrono represents.
pub open spec fn min_day() -> int {
    day_number(Date { year: MIN_YEAR, month: 1, day: 1 })
}

/// The day number of the latest date chrono represents.
pub open spec fn max_day() -> int {
    day_number(Date { year: MAX_YEAR, month: 12, day: 31 })
}

/// chrono's `NaiveDate - TimeDelta::days(n)`: the date `n` days earlier.
#[verifier::external_body]
pub(crate) fn sub_days(d: &Date, n: i64) -> (r: Date)
    requires
        valid_date(*d),
        -(i64::MAX / 1000) <= n * 86400 <= i64::MAX / 1000,
        min_day() <= day_number(*d) - n <= max_day(),
    ensures
        valid_date(r),
        day_number(r) == day_number(*d) - n,
{
    let nd = chrono::NaiveDate::from_ymd_opt(d.year, d.month, d.day).unwrap();
    let r = nd - chrono::TimeDelta::days(n);
    Date { year: r.year(), month: r.month(), day: r.day() }
}

/// chrono's `NaiveDate - Months::new(n)`: `n` months earlier, the day kept but
/// cut to the length of the month reached.
#[verifier::external_body]
pub(crate) fn sub_months(d: &Date, n: u32) -> (r: Date)
    requires
        valid_date(*d),
        n <= i32::MAX,
        MIN_YEAR <= (month_index(*d) - n) / 12,
    ensures
        valid_date(r),
        month_index(r) == month_index(*d) - n,
        r.day == if d.day <= days_in_month(r.year as int, r.month as int) {
            d.day as int
        } else {
            days_in_month(r.year as int, r.month as int)
        },
{
    let nd = chrono::NaiveDate::from_ymd_opt(d.year, d.month, d.day).unwrap();
    let r = nd - chrono::Months::new(n);
    Date { year: r.year(), month: r.month(), day: r.day() }
}

/// chrono's `NaiveDate + Months::new(n)`: `n` months later, the day kept but cut
/// to the length of the month reached.
#[verifier::external_body]
pub(crate) fn add_months(d: &Date, n: u32) -> (r: Date)
    requires
        valid_date(*d),
        n <= i32::MAX,
        (month_index(*d) + n) / 12 <= MAX_YEAR,
    ensures
        valid_date(r),
        month_index(r) == month_index(*d) + n,
        r.day == if d.day <= days_in_month(r.year as int, r.month as int) {
            d.day as int
        } else {
            days_in_month(r.year as int, r.month as int)
        },
{
    let nd = chrono::NaiveDate::from_ymd_opt(d.year, d.month, d.day).unwrap();
    let r = nd + chrono::Months::new(n);
    Date { year: r.year(), month: r.month(), day: r.day() }
}

/// chrono's `NaiveDateTime::and_utc().timestamp()`: seconds since the epoch.
#[verifier::external_body]
pub(crate) fn to_timestamp(t: &DateTime) -> (r: i64)
    requires
        valid_datetime(*t),
    ensures
        r == timestamp(*t),
{
    let d = chrono::NaiveDate::from_ymd_opt(t.year, t.month, t.day).unwrap();
    let dt = d.and_hms_nano_opt(t.hour, t.minute, t.second, t.nanosecond).unwrap();
    dt.and_utc().timestamp()
}

/// chrono's `DateTime::from_timestamp(ts, 0)` as a naive UTC date and time.
#[verifier::external_body]
pub(crate) fn from_timestamp(ts: i64) -> (r: DateTime)
    requires
        min_timestamp() <= ts <= max_timestamp(),
    ensures
        valid_datetime(r),
        timestamp(r) == ts,
        r.nanosecond == 0,
{
    let t = chrono::DateTime::from_timestamp(ts, 0).unwrap().naive_utc();
    DateTime {
        year: t.year(),
        month: t.month(),
        day: t.day(),
        hour: t.hour(),
        minute: t.minute(),
        second: t.second(),
        nanosecond: t.nanosecond(),
    }
}

/// The largest span chrono's `TimeDelta` holds, in nanoseconds: `i64::MAX`
/// milliseconds; the smallest is its negation.
pub open spec fn max_span_ns() -> int {
    i64::MAX as int * 1_000_000
}

/// A signed span of time, as chrono's `TimeDelta` gives it: whole seconds
/// (`num_seconds`, rounded toward zero) and the nanoseconds left over
/// (`subsec_nanos`, of the same sign).
#[derive(Clone, Copy, Debug, PartialEq, Eq, Structural)]
pub struct Duration {
    secs: i64,
    nanos: i32,
}

impl Duration {
    /// The span in nanoseconds.
    pub closed spec fn ns(self) -> int {
        self.secs * 1_000_000_000 + self.nanos
    }

    /// Spans hold at most `max_span_ns` nanoseconds either way.
    pub open spec fn wf(self) -> bool {
        -max_span_ns() <= self.ns() <= max_span_ns()
    }

    /// The span of `t` nanoseconds.
    fn from_ns(t: i128) -> (r: Duration)
        requires
            -max_span_ns() <= t <= max_span_ns(),
        ensures
            r.ns() == t,
            r.wf(),
    {
        let secs: i128 = if t >= 0 {
            t / 1_000_000_000
        } else {
            -((-t) / 1_000_000_000)
        };
        let nanos: i128 = t - secs * 1_000_000_000;
        Duration { secs: secs as i64, nanos: nanos as i32 }
    }

    /// The span in nanoseconds.
    fn total_ns(&self) -> (r: i128)
        ensures
            r == self.ns(),
    {
        self.secs as i128 * 1_000_000_000 + self.nanos as i128
    }

    /// The empty span.
    pub fn zero() -> (r: Duration)
        ensures
            r.ns() == 0,
            r.wf(),
    {
        Duration { secs: 0, nanos: 0 }
    }

    /// `n` minutes.
    pub fn minutes(n: i64) -> (r: Duration)
        requires
            -(i64::MAX / 1000) <= n * 60 <= i64::MAX / 1000,
        ensures
            r.ns() == n * 60_000_000_000,
            r.wf(),
    {
        Duration { secs: n * 60, nanos: 0 }
    }

    /// `n` hours.
    pub fn hours(n: i64) -> (r: Duration)
        requires
            -(i64::MAX / 1000) <= n * 3600 <= i64::MAX / 1000,
        ensures
            r.ns() == n * 3_600_000_000_000,
            r.wf(),
    {
        Duration { secs: n * 3600, nanos: 0 }
    }

    /// The sum of two spans; it must fit a span.
    pub fn add(self, other: Duration) -> (r: Duration)
        requires
            -max_span_ns() <= self.ns() + other.ns() <= max_span_ns(),
        ensures
            r.ns() == self.ns() + other.ns(),
            r.wf(),
    {
        Duration::from_ns(self.total_ns() + other.total_ns())
    }

    /// The sum of two spans, or `None` when it does not fit a span.
    pub fn checked_add(self, other: Duration) -> (r: Option<Duration>)
        requires
            self.wf(),
            other.wf(),
        ensures
            match r {
                Some(d) => d.ns() == self.ns() + other.ns() && d.wf(),
                None => !(-max_span_ns() <= self.ns() + other.ns() <= max_span_ns()),
            },
    {
        let t = self.total_ns() + other.total_ns();
        if -9_223_372_036_854_775_807_000_000i128 <= t && t <= 9_223_372_036_854_775_807_000_000i128 {
            Some(Duration::from_ns(t))
        } else {
            None
        }
    }

    /// Whole hours, rounded toward zero.
    pub fn num_hours(&self) -> (r: i64)
        requires
            self.wf(),
        ensures
            r == trunc_div(self.ns(), 3_600_000_000_000),
    {
        let t = self.total_ns();
        if t >= 0 {
            (t / 3_600_000_000_000) as i64
        } else {
            -(((-t) / 3_600_000_000_000) as i64)
        }
    }

    /// Whole minutes, rounded toward zero.
    pub fn num_minutes(&self) -> (r: i64)
        requires
            self.wf(),
        ensures
            r == trunc_div(self.ns(), 60_000_000_000),
    {
        let t = self.total_ns();
        if t >= 0 {
            (t / 60_000_000_000) as i64
        } else {
            -(((-t) / 60_000_000_000) as i64)
        }
    }
}

/// `a / b` rounded toward zero, for positive `b`.
pub open spec fn trunc_div(a: int, b: int) -> int {
    if a >= 0 {
        a / b
    } else {
        -((-a) / b)
    }
}

/// chrono's `NaiveDateTime - NaiveDateTime` (`signed_duration_since`): the span
/// from `b` to `a`.
#[verifier::external_body]
pub(crate) fn duration_since(a: &DateTime, b: &DateTime) -> (r: Duration)
    requires
        valid_datetime(*a),
        valid_datetime(*b),
    ensures
        r.ns() == duration_ns(*a, *b),
        r.wf(),
{
    let da = chrono::NaiveDate::from_ymd_opt(a.year, a.month, a.day).unwrap();
    let ta = da.and_hms_nano_opt(a.hour, a.minute, a.second, a.nanosecond).unwrap();
    let db = chrono::NaiveDate::from_ymd_opt(b.year, b.month, b.day).unwrap();
    let tb = db.and_hms_nano_opt(b.hour, b.minute, b.second, b.nanosecond).unwrap();
    let d = ta - tb;
    Duration { secs: d.num_seconds(), nanos: d.subsec_nanos() }
}

/// The decimal digit `d` as text.
fn digit_str(d: u128) -> (r: &'static str)
    requires
        d < 10,
    ensures
        r@ == seq![digit_char(d as int)],
{
    match d {
        0 => {
            proof {
                reveal_strlit("0");
            }
            "0"
        },
        1 => {
            proof {
                reveal_strlit("1");
            }
            "1"
        },
        2 => {
            proof {
                reveal_strlit("2");
            }
            "2"
        },
        3 => {
            proof {
                reveal_strlit("3");
            }
            "3"
        },
        4 => {
            proof {
                reveal_strlit("4");
            }
            "4"
        },
        5 => {
            proof {
                reveal_strlit("5");
            }
            "5"
        },
        6 => {
            proof {
                reveal_strlit("6");
            }
            "6"
        },
        7 => {
            proof {
                reveal_strlit("7");
            }
            "7"
        },
        8 => {
            proof {
                reveal_strlit("8");
            }
            "8"
        },
        _ => {
            proof {
                reveal_strlit("9");
            }
            "9"
        },
    }
}

/// `n` in decimal, without leading zeros.
pub(crate) fn nat_to_string(n: u128) -> (r: String)
    ensures
        r@ == digits(n as nat),
    decreases n,
{
    if n < 10 {
        String::from_str(digit_str(n))
    } else {
        let mut s = nat_to_string(n / 10);
        s.append(digit_str(n % 10));
        s
    }
}

/// `n` in decimal, with a `-` when negative.
pub(crate) fn int_to_string(n: i64) -> (r: String)
    ensures
        r@ == int_text(n as int),
{
    if n < 0 {
        proof {
            reveal_strlit("-");
        }
        let mut s = String::from_str("-");
        let m: u128 = (0i128 - n as i128) as u128;
        s.append(nat_to_string(m).as_str());
        assert(s@ =~= int_text(n as int));
        s
    } else {
        nat_to_string(n as u128)
    }
}

impl Date {
    /// Whether chrono can represent this date.
    pub fn is_valid(&self) -> (r: bool)
        ensures
            r == valid_date(*self),
    {
        if self.year < MIN_YEAR || self.year > MAX_YEAR || self.month < 1 || self.month > 12
            || self.day < 1 {
            return false;
        }
        let leap = (self.year % 4 == 0 && self.year % 100 != 0) || self.year % 400 == 0;
        assert(leap == is_leap_year(self.year as int));
        let dim: u32 = if self.month == 2 {
            if leap {
                29
            } else {
                28
            }
        } else if self.month == 4 || self.month == 6 || self.month == 9 || self.month == 11 {
            30
        } else {
            31
        };
        self.day <= dim
    }
}

impl DateTime {
    /// Whether chrono can represent this date and time.
    pub fn is_valid(&self) -> (r: bool)
        ensures
            r == valid_datetime(*self),
    {
        self.date().is_valid() && self.hour < 24 && self.minute < 60 && self.second < 60 && (
        self.nanosecond < 1_000_000_000 || (self.second == 59 && self.nanosecond < 2_000_000_000))
    }

    /// The date of this date and time.
    pub fn date(&self) -> (r: Date)
        ensures
            r == date_of(*self),
    {
        Date { year: self.year, month: self.month, day: self.day }
    }

    /// Midnight at the start of `d` (chrono's `NaiveDate` into `NaiveDateTime`).
    pub fn midnight(d: Date) -> (r: DateTime)
        ensures
            r == midnight_of(d),
    {
        DateTime { year: d.year, month: d.month, day: d.day, hour: 0, minute: 0, second: 0, nanosecond: 0 }
    }

    /// Whether `self` comes strictly before `other` (chrono's order).
    pub fn is_before(&self, other: &DateTime) -> (r: bool)
        ensures
            r == earlier(*self, *other),
    {
        if self.year != other.year {
            self.year < other.year
        } else if self.month != other.month {
            self.month < other.month
        } else if self.day != other.day {
            self.day < other.day
        } else if self.hour != other.hour {
            self.hour < other.hour
        } else if self.minute != other.minute {
            self.minute < other.minute
        } else if self.second != other.second {
            self.second < other.second
        } else {
            self.nanosecond < other.nanosecond
        }
    }
}

} // verus!
