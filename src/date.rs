//! Calendar dates in the proleptic Gregorian calendar, their `YYYY-MM-DD`
//! text form, and the UTC date of a Unix timestamp.
use vstd::prelude::*;

verus! {

/// Seconds in one UTC day.
pub const SECONDS_PER_DAY: i64 = 86400;

/// Unix timestamp of 0000-01-01T00:00:00Z, the first instant with a
/// four-digit year.
pub const FIRST_TIMESTAMP: i64 = -62167219200;

/// Unix timestamp of 9999-12-31T23:59:59Z, the last instant with a
/// four-digit year.
pub const LAST_TIMESTAMP: i64 = 253402300799;

/// A calendar date with a four-digit year.
#[derive(Clone, Copy, Debug, PartialEq, Eq, Structural)]
pub struct Date {
    pub year: u16,
    pub month: u8,
    pub day: u8,
}

pub open spec fn is_leap_year(y: int) -> bool {
    y % 4 == 0 && (y % 100 != 0 || y % 400 == 0)
}

pub open spec fn days_in_month(y: int, m: int) -> int {
    if m == 2 {
        if is_leap_year(y) { 29 } else { 28 }
    } else if m == 4 || m == 6 || m == 9 || m == 11 {
        30
    } else {
        31
    }
}

/// Year, month and day name a date with a four-digit year.
pub open spec fn valid_ymd(y: int, m: int, d: int) -> bool {
    0 <= y <= 9999 && 1 <= m <= 12 && 1 <= d <= days_in_month(y, m)
}

/// The Gregorian (year, month, day) of the day that lies `z` days after
/// 1970-01-01 (before it, for negative `z`).
pub open spec fn civil_from_days(z: int) -> (int, int, int) {
    let z0 = z + 719468;
    let era = z0 / 146097;
    let doe = z0 - era * 146097;
    let yoe = (doe - doe / 1460 + doe / 36524 - doe / 146096) / 365;
    let doy = doe - (365 * yoe + yoe / 4 - yoe / 100);
    let mp = (5 * doy + 2) / 153;
    let d = doy - (153 * mp + 2) / 5 + 1;
    let m = if mp < 10 { mp + 3 } else { mp - 9 };
    let y = yoe + era * 400;
    (if m <= 2 { y + 1 } else { y }, m, d)
}

/// The UTC date of a Unix timestamp, where it has a four-digit year.
pub open spec fn utc_date_of(ts: int) -> Option<Date> {
    let (y, m, d) = civil_from_days(ts / (SECONDS_PER_DAY as int));
    if FIRST_TIMESTAMP <= ts <= LAST_TIMESTAMP && valid_ymd(y, m, d) {
        Some(Date { year: y as u16, month: m as u8, day: d as u8 })
    } else {
        None
    }
}

/// Different days have different calendar dates.
pub proof fn lemma_civil_from_days_injective(z1: int, z2: int)
    requires
        civil_from_days(z1) == civil_from_days(z2),
    ensures
        z1 == z2,
{
    let a1 = z1 + 719468;
    let a2 = z2 + 719468;
    let era1 = a1 / 146097;
    let era2 = a2 / 146097;
    let doe1 = a1 - era1 * 146097;
    let doe2 = a2 - era2 * 146097;
    let yoe1 = (doe1 - doe1 / 1460 + doe1 / 36524 - doe1 / 146096) / 365;
    let yoe2 = (doe2 - doe2 / 1460 + doe2 / 36524 - doe2 / 146096) / 365;
    assert(0 <= doe1 < 146097);
    assert(0 <= doe2 < 146097);
    assert(0 <= yoe1 < 400);
    assert(0 <= yoe2 < 400);
    let doy1 = doe1 - (365 * yoe1 + yoe1 / 4 - yoe1 / 100);
    let doy2 = doe2 - (365 * yoe2 + yoe2 / 4 - yoe2 / 100);
    assert(0 <= doy1 < 366);
    assert(0 <= doy2 < 366);
    let mp1 = (5 * doy1 + 2) / 153;
    let mp2 = (5 * doy2 + 2) / 153;
    assert(0 <= mp1 < 12);
    assert(0 <= mp2 < 12);
    assert(mp1 == mp2);
    assert(doy1 == doy2);
    assert(yoe1 + era1 * 400 == yoe2 + era2 * 400);
    assert(era1 == era2);
    assert(yoe1 == yoe2);
}

pub open spec fn digit_char(n: int) -> char {
    if n == 0 { '0' }
    else if n == 1 { '1' }
    else if n == 2 { '2' }
    else if n == 3 { '3' }
    else if n == 4 { '4' }
    else if n == 5 { '5' }
    else if n == 6 { '6' }
    else if n == 7 { '7' }
    else if n == 8 { '8' }
    else { '9' }
}

pub open spec fn is_digit(c: char) -> bool {
    '0' <= c <= '9'
}

pub open spec fn digit_value(c: char) -> int {
    c as int - '0' as int
}

/// The two decimal digits of `n`, for `n < 100`.
pub open spec fn two_digits(n: int) -> Seq<char> {
    seq![digit_char(n / 10), digit_char(n % 10)]
}

/// The four decimal digits of `n`, for `n < 10000`.
pub open spec fn four_digits(n: int) -> Seq<char> {
    two_digits(n / 100) + two_digits(n % 100)
}

/// The value of the decimal digits `s[lo..hi]`.
pub open spec fn digits_value(s: Seq<char>, lo: int, hi: int) -> int
    decreases hi - lo,
{
    if hi <= lo {
        0
    } else {
        digits_value(s, lo, hi - 1) * 10 + digit_value(s[hi - 1])
    }
}

pub open spec fn all_digits(s: Seq<char>, lo: int, hi: int) -> bool {
    forall|i: int| lo <= i < hi ==> is_digit(#[trigger] s[i])
}

/// `s` has the shape `DDDD-DD-DD`.
pub open spec fn date_shaped(s: Seq<char>) -> bool {
    &&& s.len() == 10
    &&& s[4] == '-'
    &&& s[7] == '-'
    &&& all_digits(s, 0, 4)
    &&& all_digits(s, 5, 7)
    &&& all_digits(s, 8, 10)
}

/// The date that a `YYYY-MM-DD` text names, if it names one.
pub open spec fn parse_date(s: Seq<char>) -> Option<Date> {
    if date_shaped(s) {
        let y = digits_value(s, 0, 4);
        let m = digits_value(s, 5, 7);
        let d = digits_value(s, 8, 10);
        if valid_ymd(y, m, d) {
            Some(Date { year: y as u16, month: m as u8, day: d as u8 })
        } else {
            None
        }
    } else {
        None
    }
}

impl Date {
    pub open spec fn wf(self) -> bool {
        valid_ymd(self.year as int, self.month as int, self.day as int)
    }

    /// The `YYYY-MM-DD` text of the date.
    pub open spec fn text(self) -> Seq<char> {
        four_digits(self.year as int) + seq!['-'] + two_digits(self.month as int) + seq!['-']
            + two_digits(self.day as int)
    }

    /// Calendar order: `self` is the same day as `o` or a later one.
    pub open spec fn on_or_after(self, o: Date) -> bool {
        ||| self.year > o.year
        ||| (self.year == o.year && self.month > o.month)
        ||| (self.year == o.year && self.month == o.month && self.day >= o.day)
    }

    /// The date with the given year, month and day, if there is one.
    pub fn new(year: u16, month: u8, day: u8) -> (r: Option<Date>)
        ensures
            r == (if valid_ymd(year as int, month as int, day as int) {
                Some(Date { year, month, day })
            } else {
                None
            }),
    {
        if year <= 9999 && 1 <= month && month <= 12 && 1 <= day && day <= month_length(year, month) {
            Some(Date { year, month, day })
        } else {
            None
        }
    }

    /// Whether `self` is the same day as `o` or a later one.
    pub fn is_on_or_after(&self, o: &Date) -> (r: bool)
        ensures
            r == self.on_or_after(*o),
    {
        self.year > o.year || (self.year == o.year && self.month > o.month) || (self.year
            == o.year && self.month == o.month && self.day >= o.day)
    }

    /// The UTC date of a Unix timestamp, or `None` where its year does not
    /// have four digits.
    pub fn from_timestamp(ts: i64) -> (r: Option<Date>)
        ensures
            r == utc_date_of(ts as int),
            r matches Some(d) ==> d.wf(),
    {
        if ts < FIRST_TIMESTAMP || ts > LAST_TIMESTAMP {
            return None;
        }
        match utc_date_parts(ts) {
            Some((y, m, d)) => {
                if 0 <= y && y <= 9999 {
                    Date::new(y as u16, m, d)
                } else {
                    None
                }
            },
            None => None,
        }
    }

    /// The `YYYY-MM-DD` text of the date.
    pub fn to_text(&self) -> (r: String)
        requires
            self.wf(),
        ensures
            r@ == self.text(),
    {
        let mut s = String::new();
        push_digits(&mut s, self.year / 100);
        push_digits(&mut s, self.year % 100);
        s.append("-");
        push_digits(&mut s, self.month as u16);
        s.append("-");
        push_digits(&mut s, self.day as u16);
        proof {
            reveal_strlit("-");
            assert(s@ =~= self.text());
        }
        s
    }

    /// The date that a `YYYY-MM-DD` text names, or `None` where the text has
    /// another shape or names no date.
    pub fn parse(text: &str) -> (r: Option<Date>)
        ensures
            r == parse_date(text@),
            r matches Some(d) ==> d.wf(),
    {
        let n = text.unicode_len();
        if n != 10 {
            return None;
        }
        if text.get_char(4) != '-' || text.get_char(7) != '-' {
            return None;
        }
        let y = match read_digits(text, 0, 4) {
            Some(v) => v,
            None => return None,
        };
        let m = match read_digits(text, 5, 7) {
            Some(v) => v,
            None => return None,
        };
        let d = match read_digits(text, 8, 10) {
            Some(v) => v,
            None => return None,
        };
        if m > 255 || d > 255 {
            return None;
        }
        Date::new(y as u16, m as u8, d as u8)
    }
}

/// The number of days in the given month of the given year.
fn month_length(year: u16, month: u8) -> (r: u8)
    ensures
        r as int == days_in_month(year as int, month as int),
{
    if month == 2 {
        if year % 4 == 0 && (year % 100 != 0 || year % 400 == 0) {
            29
        } else {
            28
        }
    } else if month == 4 || month == 6 || month == 9 || month == 11 {
        30
    } else {
        31
    }
}

/// The text of one decimal digit.
fn digit_text(n: u16) -> (r: &'static str)
    requires
        n < 10,
    ensures
        r@ == seq![digit_char(n as int)],
{
    proof {
        reveal_strlit("0");
        reveal_strlit("1");
        reveal_strlit("2");
        reveal_strlit("3");
        reveal_strlit("4");
        reveal_strlit("5");
        reveal_strlit("6");
        reveal_strlit("7");
        reveal_strlit("8");
        reveal_strlit("9");
    }
    let r = if n == 0 { "0" }
    else if n == 1 { "1" }
    else if n == 2 { "2" }
    else if n == 3 { "3" }
    else if n == 4 { "4" }
    else if n == 5 { "5" }
    else if n == 6 { "6" }
    else if n == 7 { "7" }
    else if n == 8 { "8" }
    else { "9" };
    assert(r@ =~= seq![digit_char(n as int)]);
    r
}

/// Appends the two decimal digits of `n`.
fn push_digits(s: &mut String, n: u16)
    requires
        n < 100,
    ensures
        final(s)@ == old(s)@ + two_digits(n as int),
{
    s.append(digit_text(n / 10));
    s.append(digit_text(n % 10));
    assert(final(s)@ =~= old(s)@ + two_digits(n as int));
}

/// The value of the decimal digits `text[lo..hi]`, or `None` where one of
/// them is no digit.
fn read_digits(text: &str, lo: usize, hi: usize) -> (r: Option<u32>)
    requires
        lo <= hi <= text@.len(),
        hi - lo <= 4,
    ensures
        r is Some == all_digits(text@, lo as int, hi as int),
        r matches Some(v) ==> v as int == digits_value(text@, lo as int, hi as int) && v < 10000,
{
    let mut v: u32 = 0;
    let mut i: usize = lo;
    while i < hi
        invariant
            lo <= i <= hi <= text@.len(),
            hi - lo <= 4,
            all_digits(text@, lo as int, i as int),
            v as int == digits_value(text@, lo as int, i as int),
            v < pow10((i - lo) as nat),
        decreases hi - i,
    {
        proof {
            lemma_pow10_small((i - lo) as nat);
        }
        let c = text.get_char(i);
        if c < '0' || c > '9' {
            return None;
        }
        proof {
            assert(pow10((i + 1 - lo) as nat) == 10 * pow10((i - lo) as nat));
        }
        v = v * 10 + (c as u32 - '0' as u32);
        i = i + 1;
    }
    proof {
        lemma_pow10_small((hi - lo) as nat);
    }
    Some(v)
}

proof fn lemma_pow10_small(k: nat)
    requires
        k <= 4,
    ensures
        pow10(k) <= 10000,
        k <= 3 ==> pow10(k) <= 1000,
{
    reveal_with_fuel(pow10, 5);
}

pub open spec fn pow10(n: nat) -> int
    decreases n,
{
    if n == 0 { 1 } else { 10 * pow10((n - 1) as nat) }
}

proof fn lemma_digit_round_trip(n: int)
    requires
        0 <= n < 10,
    ensures
        is_digit(digit_char(n)),
        digit_value(digit_char(n)) == n,
{
}

proof fn lemma_two_digits_value(s: Seq<char>, lo: int, n: int)
    requires
        0 <= n < 100,
        0 <= lo,
        lo + 2 <= s.len(),
        s.subrange(lo, lo + 2) == two_digits(n),
    ensures
        all_digits(s, lo, lo + 2),
        digits_value(s, lo, lo + 2) == n,
{
    lemma_digit_round_trip(n / 10);
    lemma_digit_round_trip(n % 10);
    assert(s[lo] == s.subrange(lo, lo + 2)[0]);
    assert(s[lo + 1] == s.subrange(lo, lo + 2)[1]);
    reveal_with_fuel(digits_value, 3);
}

/// The text of a date reads back as that date.
pub proof fn law_date_text_round_trip(d: Date)
    requires
        d.wf(),
    ensures
        parse_date(d.text()) == Some(d),
{
    let s = d.text();
    let y = d.year as int;
    assert(s.len() == 10);
    assert(s.subrange(0, 2) == two_digits(y / 100));
    assert(s.subrange(2, 4) == two_digits(y % 100));
    assert(s.subrange(5, 7) == two_digits(d.month as int));
    assert(s.subrange(8, 10) == two_digits(d.day as int));
    lemma_two_digits_value(s, 0, y / 100);
    lemma_two_digits_value(s, 2, y % 100);
    lemma_two_digits_value(s, 5, d.month as int);
    lemma_two_digits_value(s, 8, d.day as int);
    reveal_with_fuel(digits_value, 5);
    assert(digits_value(s, 0, 4) == digits_value(s, 0, 2) * 100 + digits_value(s, 2, 4));
    assert(all_digits(s, 0, 4));
}

/// Relies on `time::OffsetDateTime::from_unix_timestamp` and its `year`,
/// `month` and `day`: the UTC calendar date of a timestamp, which the crate
/// returns for every timestamp from year -9999 through year 9999.
#[verifier::external_body]
fn utc_date_parts(ts: i64) -> (r: Option<(i32, u8, u8)>)
    ensures
        FIRST_TIMESTAMP <= ts <= LAST_TIMESTAMP ==> r is Some,
        r matches Some(p) ==> (p.0 as int, p.1 as int, p.2 as int) == civil_from_days(
            ts as int / (SECONDS_PER_DAY as int),
        ),
{
    match time::OffsetDateTime::from_unix_timestamp(ts) {
        Ok(t) => Some((t.year(), u8::from(t.month()), t.day())),
        Err(_) => None,
    }
}

} // verus!
