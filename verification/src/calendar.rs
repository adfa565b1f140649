//! Calendar: a small RFC-5545 subset recurrence engine and the
//! occurrence expansion the agenda query uses.
//!
//! Supported: `FREQ` (DAILY/WEEKLY/MONTHLY/YEARLY), `INTERVAL`, `COUNT`,
//! `UNTIL`. Other parts (`BYDAY`, `BYMONTHDAY`, …) are ignored, not
//! errors. `COUNT` bounds the occurrences from the series start,
//! independent of the query window.
//!
//! Instants are UTC date-times held as their calendar fields, as chrono
//! holds them; chrono does the parsing and the day arithmetic.
use vstd::prelude::*;

use chrono::{Datelike, Timelike};

use crate::text::{
    index_of, index_of_exec, is_ascii_digit, lemma_index_of, same, slice_of, split_char,
    split_char_exec, string_of, to_chars, trim, trim_end_char, trim_end_char_exec, trim_of,
    upper_all, upper_all_exec, views,
};

verus! {

/// The earliest and latest year chrono represents.
pub const MIN_YEAR: i32 = -262143;
pub const MAX_YEAR: i32 = 262142;

/// A UTC date and time of day (a leap second has `second == 59` and
/// `nano >= 1_000_000_000`, as in chrono).
#[derive(Debug, Clone, Copy, PartialEq, Eq, Structural)]
pub struct UtcDateTime {
    pub year: i32,
    pub month: u32,
    pub day: u32,
    pub hour: u32,
    pub minute: u32,
    pub second: u32,
    pub nano: u32,
}

/// The fields of an instant, in order of significance.
pub type Stamp = (int, int, int, int, int, int, int);

impl View for UtcDateTime {
    type V = Stamp;

    open spec fn view(&self) -> Stamp {
        (
            self.year as int,
            self.month as int,
            self.day as int,
            self.hour as int,
            self.minute as int,
            self.second as int,
            self.nano as int,
        )
    }
}

pub open spec fn valid_year(y: int) -> bool {
    MIN_YEAR <= y <= MAX_YEAR
}

/// Proleptic Gregorian leap year.
pub open spec fn is_leap(y: int) -> bool {
    y % 4 == 0 && (y % 100 != 0 || y % 400 == 0)
}

pub open spec fn days_in_month(y: int, m: int) -> int {
    if m == 2 {
        if is_leap(y) {
            29
        } else {
            28
        }
    } else if m == 4 || m == 6 || m == 9 || m == 11 {
        30
    } else {
        31
    }
}

/// A stamp chrono can hold: a real calendar date in range and a real
/// time of day.
pub open spec fn valid_stamp(s: Stamp) -> bool {
    &&& valid_year(s.0)
    &&& 1 <= s.1 <= 12
    &&& 1 <= s.2 <= days_in_month(s.0, s.1)
    &&& 0 <= s.3 < 24
    &&& 0 <= s.4 < 60
    &&& 0 <= s.5 < 60
    &&& 0 <= s.6 < 2_000_000_000
    &&& (s.6 >= 1_000_000_000 ==> s.5 == 59)
}

pub open spec fn wf(t: UtcDateTime) -> bool {
    valid_stamp(t@)
}

/// `a` is strictly earlier than `b`.
pub open spec fn earlier(a: Stamp, b: Stamp) -> bool {
    ||| a.0 < b.0
    ||| a.0 == b.0 && a.1 < b.1
    ||| a.0 == b.0 && a.1 == b.1 && a.2 < b.2
    ||| a.0 == b.0 && a.1 == b.1 && a.2 == b.2 && a.3 < b.3
    ||| a.0 == b.0 && a.1 == b.1 && a.2 == b.2 && a.3 == b.3 && a.4 < b.4
    ||| a.0 == b.0 && a.1 == b.1 && a.2 == b.2 && a.3 == b.3 && a.4 == b.4 && a.5 < b.5
    ||| a.0 == b.0 && a.1 == b.1 && a.2 == b.2 && a.3 == b.3 && a.4 == b.4 && a.5 == b.5 && a.6
        < b.6
}

impl UtcDateTime {
    /// `self < other` in time.
    pub fn is_before(&self, other: &UtcDateTime) -> (r: bool)
        ensures
            r == earlier(self@, other@),
    {
        if self.year != other.year {
            return self.year < other.year;
        }
        if self.month != other.month {
            return self.month < other.month;
        }
        if self.day != other.day {
            return self.day < other.day;
        }
        if self.hour != other.hour {
            return self.hour < other.hour;
        }
        if self.minute != other.minute {
            return self.minute < other.minute;
        }
        if self.second != other.second {
            return self.second < other.second;
        }
        self.nano < other.nano
    }
}

fn is_leap_year(y: i32) -> (r: bool)
    ensures
        r == is_leap(y as int),
{
    // Shift by a multiple of 400 so the remainders are taken of a
    // non-negative number; divisibility by 4, 100 and 400 is unchanged.
    let p: u64 = (y as i64 + 2_147_484_000i64) as u64;
    proof {
        assert(p as int == y + 400 * 5368710);
        assert(p as int % 4 == y % 4);
        assert(p as int % 100 == y % 100);
        assert(p as int % 400 == y % 400);
    }
    p % 4 == 0 && (p % 100 != 0 || p % 400 == 0)
}

/// The last day of month `m` (1–12) of year `y`: the day before the
/// first of the next month, or 28 where that date is out of range.
pub open spec fn last_day(y: int, m: int) -> int {
    let ny = if m == 12 {
        y + 1
    } else {
        y
    };
    if valid_year(y) && valid_year(ny) {
        days_in_month(y, m)
    } else {
        28
    }
}

fn last_day_of_month(y: i32, m: u32) -> (r: u32)
    requires
        1 <= m <= 12,
    ensures
        r == last_day(y as int, m as int),
{
    let ny: i64 = if m == 12 {
        y as i64 + 1
    } else {
        y as i64
    };
    if !(MIN_YEAR as i64 <= y as i64 && y as i64 <= MAX_YEAR as i64 && MIN_YEAR as i64 <= ny
        && ny <= MAX_YEAR as i64) {
        return 28;
    }
    if m == 2 {
        if is_leap_year(y) {
            29
        } else {
            28
        }
    } else if m == 4 || m == 6 || m == 9 || m == 11 {
        30
    } else {
        31
    }
}

/// `dt` moved by `months` calendar months, the day clamped to the
/// target month's last day and the time of day kept; `dt` itself where
/// the target date is out of range. The target year is the year count
/// taken modulo 2³², as a 32-bit year.
pub open spec fn shifted_months(dt: UtcDateTime, months: int) -> UtcDateTime {
    let m0 = dt.year * 12 + (dt.month - 1) + months;
    let y = (m0 / 12) as i32;
    let m = m0 % 12 + 1;
    let last = last_day(y as int, m);
    let day = if dt.day <= last {
        dt.day as int
    } else {
        last
    };
    if valid_year(y as int) && day >= 1 {
        UtcDateTime { year: y, month: m as u32, day: day as u32, ..dt }
    } else {
        dt
    }
}

/// Adds `months` calendar months (see `shifted_months`).
pub fn add_months(dt: &UtcDateTime, months: i128) -> (r: UtcDateTime)
    requires
        -0x100_0000_0000_0000_0000 < months < 0x100_0000_0000_0000_0000,
    ensures
        r == shifted_months(*dt, months as int),
{
    // 12 * 2^76 exceeds every |year * 12 + month0 + months| here.
    let k: i128 = 0x1000_0000_0000_0000_0000i128;
    let m0: i128 = dt.year as i128 * 12 + (dt.month as i128 - 1) + months as i128;
    let shifted: u128 = (m0 + 12 * k) as u128;
    let q: i128 = (shifted / 12) as i128 - k;
    let rem: u32 = (shifted % 12) as u32;
    proof {
        assert(shifted as int == m0 + 12 * k);
        assert(q == m0 / 12) by {
            assert((m0 + 12 * k) / 12 == m0 / 12 + k);
        }
        assert(rem == m0 % 12) by {
            assert((m0 + 12 * k) % 12 == m0 % 12);
        }
    }
    let y: i32 = q as i32;
    let m: u32 = rem + 1;
    let last = last_day_of_month(y, m);
    let day = if dt.day <= last {
        dt.day
    } else {
        last
    };
    if MIN_YEAR <= y && y <= MAX_YEAR && day >= 1 {
        UtcDateTime { year: y, month: m, day, ..*dt }
    } else {
        *dt
    }
}


// ---------- chrono ----------

pub open spec fn opt_view(r: Option<UtcDateTime>) -> Option<Stamp> {
    match r {
        Some(t) => Some(t@),
        None => None,
    }
}

/// The instant `days` whole days after `t`, as chrono computes it
/// (`None` out of chrono's range).
pub uninterp spec fn days_later(t: Stamp, days: int) -> Option<Stamp>;

/// The UTC instant chrono reads from RFC 3339 text.
pub uninterp spec fn rfc3339_utc(s: Seq<char>) -> Option<Stamp>;

/// The date and time chrono reads from `%Y%m%dT%H%M%S` text.
pub uninterp spec fn compact_datetime(s: Seq<char>) -> Option<Stamp>;

/// The date chrono reads from `%Y%m%d` text.
pub uninterp spec fn compact_date(s: Seq<char>) -> Option<(int, int, int)>;

/// chrono's `DateTime::<Utc>::checked_add_signed` with
/// `TimeDelta::try_days(days)`: the instant `days` whole days later, or
/// `None` when the delta or the result leaves chrono's range. The result
/// is named (`days_later`), not stated; chrono only yields valid
/// instants.
#[verifier::external_body]
fn chrono_add_days(t: &UtcDateTime, days: i64) -> (r: Option<UtcDateTime>)
    requires
        wf(*t),
    ensures
        opt_view(r) == days_later(t@, days as int),
        r matches Some(x) ==> wf(x),
{
    let d = chrono::NaiveDate::from_ymd_opt(t.year, t.month, t.day)?
        .and_hms_nano_opt(t.hour, t.minute, t.second, t.nano)?.and_utc();
    let r = d.checked_add_signed(chrono::TimeDelta::try_days(days)?)?;
    Some(UtcDateTime { year: r.year(), month: r.month(), day: r.day(), hour: r.hour(),
        minute: r.minute(), second: r.second(), nano: r.nanosecond() })
}

/// chrono's `DateTime::parse_from_rfc3339`, converted to UTC. The
/// result is named (`rfc3339_utc`); chrono only yields valid instants.
#[verifier::external_body]
pub(crate) fn chrono_parse_rfc3339(s: &str) -> (r: Option<UtcDateTime>)
    ensures
        opt_view(r) == rfc3339_utc(s@),
        r matches Some(x) ==> wf(x),
{
    let d = chrono::DateTime::parse_from_rfc3339(s).ok()?.with_timezone(&chrono::Utc);
    Some(UtcDateTime { year: d.year(), month: d.month(), day: d.day(), hour: d.hour(),
        minute: d.minute(), second: d.second(), nano: d.nanosecond() })
}

/// chrono's `NaiveDateTime::parse_from_str` with `%Y%m%dT%H%M%S`, taken
/// as UTC. The result is named (`compact_datetime`); chrono only yields
/// valid date-times.
#[verifier::external_body]
fn chrono_parse_compact_datetime(s: &str) -> (r: Option<UtcDateTime>)
    ensures
        opt_view(r) == compact_datetime(s@),
        r matches Some(x) ==> wf(x),
{
    let n = chrono::NaiveDateTime::parse_from_str(s, "%Y%m%dT%H%M%S").ok()?;
    Some(UtcDateTime { year: n.year(), month: n.month(), day: n.day(), hour: n.hour(),
        minute: n.minute(), second: n.second(), nano: n.nanosecond() })
}

/// chrono's `NaiveDate::parse_from_str` with `%Y%m%d`, as
/// `(year, month, day)`. The result is named (`compact_date`); chrono
/// only yields valid dates.
#[verifier::external_body]
fn chrono_parse_compact_date(s: &str) -> (r: Option<(i32, u32, u32)>)
    ensures
        (match r {
            Some(d) => Some((d.0 as int, d.1 as int, d.2 as int)),
            None => None,
        }) == compact_date(s@),
        r matches Some(d) ==> valid_stamp((d.0 as int, d.1 as int, d.2 as int, 0, 0, 0, 0)),
{
    let d = chrono::NaiveDate::parse_from_str(s, "%Y%m%d").ok()?;
    Some((d.year(), d.month(), d.day()))
}

/// The date and time chrono reads from `%Y-%m-%dT%H:%M:%S` text (no
/// offset).
pub uninterp spec fn naive_utc(s: Seq<char>) -> Option<Stamp>;

/// chrono's `NaiveDateTime::parse_from_str` with `%Y-%m-%dT%H:%M:%S`,
/// taken as UTC. The result is named (`naive_utc`); chrono only yields
/// valid date-times.
#[verifier::external_body]
fn chrono_parse_naive(s: &str) -> (r: Option<UtcDateTime>)
    ensures
        opt_view(r) == naive_utc(s@),
        r matches Some(x) ==> wf(x),
{
    let n = chrono::NaiveDateTime::parse_from_str(s, "%Y-%m-%dT%H:%M:%S").ok()?;
    Some(UtcDateTime { year: n.year(), month: n.month(), day: n.day(), hour: n.hour(),
        minute: n.minute(), second: n.second(), nano: n.nanosecond() })
}

/// The text chrono's `DateTime::<Utc>::to_rfc3339` writes for an instant.
pub uninterp spec fn rfc3339_text(t: Stamp) -> Seq<char>;

/// chrono's `DateTime::<Utc>::to_rfc3339` of a valid instant. The result
/// is named (`rfc3339_text`); for a year of four digits (0 to 9999) the
/// text is `YYYY-MM-DDTHH:MM:SS[.fraction]+00:00`, which
/// `DateTime::parse_from_rfc3339` reads back as the same instant (a leap
/// second is written as second 60 and read back as such). Other years
/// get a sign and five digits, which RFC 3339 parsing does not take.
#[verifier::external_body]
pub(crate) fn chrono_to_rfc3339(t: &UtcDateTime) -> (r: String)
    requires
        wf(*t),
    ensures
        r@ == rfc3339_text(t@),
        0 <= t.year <= 9999 ==> rfc3339_utc(r@) == Some(t@),
{
    match chrono::NaiveDate::from_ymd_opt(t.year, t.month, t.day) {
        Some(d) => match d.and_hms_nano_opt(t.hour, t.minute, t.second, t.nano) {
            Some(n) => n.and_utc().to_rfc3339(),
            None => String::new(),
        },
        None => String::new(),
    }
}

/// The Unix epoch, `1970-01-01T00:00:00Z`.
pub open spec fn epoch() -> Stamp {
    (1970, 1, 1, 0, 0, 0, 0)
}

/// The instant a stored timestamp stands for: RFC 3339 text, else a
/// naive `%Y-%m-%dT%H:%M:%S` date-time read as UTC, else the epoch.
pub open spec fn parse_dt_spec(s: Seq<char>) -> Stamp {
    match rfc3339_utc(s) {
        Some(x) => x,
        None => match naive_utc(s) {
            Some(x) => x,
            None => epoch(),
        },
    }
}

/// Reads a stored timestamp: RFC 3339, else a naive date-time taken as
/// UTC, else the epoch.
pub fn parse_dt(s: &str) -> (r: UtcDateTime)
    ensures
        r@ == parse_dt_spec(s@),
        wf(r),
{
    match chrono_parse_rfc3339(s) {
        Some(x) => x,
        None => match chrono_parse_naive(s) {
            Some(x) => x,
            None => UtcDateTime { year: 1970, month: 1, day: 1, hour: 0, minute: 0, second: 0, nano: 0 },
        },
    }
}

/// `t` is an instant chrono can hold.
pub fn is_valid(t: &UtcDateTime) -> (b: bool)
    ensures
        b == wf(*t),
{
    if !(MIN_YEAR <= t.year && t.year <= MAX_YEAR && 1 <= t.month && t.month <= 12) {
        return false;
    }
    let dim: u32 = if t.month == 2 {
        if is_leap_year(t.year) {
            29
        } else {
            28
        }
    } else if t.month == 4 || t.month == 6 || t.month == 9 || t.month == 11 {
        30
    } else {
        31
    };
    1 <= t.day && t.day <= dim && t.hour < 24 && t.minute < 60 && t.second < 60 && t.nano
        < 2_000_000_000 && (t.nano < 1_000_000_000 || t.second == 59)
}

/// The `UNTIL` value for the three readings of its text, tried in
/// order: RFC 3339, then `%Y%m%dT%H%M%S`, then `%Y%m%d` at midnight.
pub open spec fn until_choice(
    rfc: Option<Stamp>,
    compact: Option<Stamp>,
    date: Option<(int, int, int)>,
) -> Option<Stamp> {
    match rfc {
        Some(x) => Some(x),
        None => match compact {
            Some(x) => Some(x),
            None => match date {
                Some(d) => Some((d.0, d.1, d.2, 0, 0, 0, 0)),
                None => None,
            },
        },
    }
}

/// Picks the `UNTIL` instant from the readings of its text.
pub fn until_of(
    rfc: Option<UtcDateTime>,
    compact: Option<UtcDateTime>,
    date: Option<(i32, u32, u32)>,
) -> (r: Option<UtcDateTime>)
    ensures
        opt_view(r) == until_choice(
            opt_view(rfc),
            opt_view(compact),
            match date {
                Some(d) => Some((d.0 as int, d.1 as int, d.2 as int)),
                None => None,
            },
        ),
{
    match rfc {
        Some(x) => Some(x),
        None => match compact {
            Some(x) => Some(x),
            None => match date {
                Some(d) => Some(
                    UtcDateTime { year: d.0, month: d.1, day: d.2, hour: 0, minute: 0, second: 0, nano: 0 },
                ),
                None => None,
            },
        },
    }
}

/// The `UNTIL` instant of `v`: RFC 3339, or the compact forms with any
/// trailing `Z` removed.
pub open spec fn until_text(v: Seq<char>) -> Option<Stamp> {
    let w = trim_end_char(v, 'Z');
    until_choice(rfc3339_utc(v), compact_datetime(w), compact_date(w))
}

/// Parses an `UNTIL` value.
pub fn parse_until(v: &str) -> (r: Option<UtcDateTime>)
    ensures
        opt_view(r) == until_text(v@),
        r matches Some(x) ==> wf(x),
{
    let w = string_of(&trim_end_char_exec(&to_chars(v), 'Z'));
    let rfc = chrono_parse_rfc3339(v);
    let compact = chrono_parse_compact_datetime(w.as_str());
    let date = chrono_parse_compact_date(w.as_str());
    until_of(rfc, compact, date)
}

// ---------- RRULE ----------

/// Recurrence frequency.
#[derive(Debug, Clone, Copy, PartialEq, Eq, Structural)]
pub enum Freq {
    Daily,
    Weekly,
    Monthly,
    Yearly,
}

/// A parsed recurrence rule: `interval` is at least 1.
#[derive(Debug, Clone, PartialEq, Eq)]
pub struct RRule {
    pub freq: Freq,
    pub interval: u32,
    pub count: Option<u32>,
    pub until: Option<UtcDateTime>,
}

/// The value of a run of decimal digits.
pub open spec fn digits_value(d: Seq<char>) -> int
    decreases d.len(),
{
    if d.len() == 0 {
        0
    } else {
        10 * digits_value(d.drop_last()) + (d.last() as int - '0' as int)
    }
}

pub open spec fn all_digits(d: Seq<char>) -> bool {
    forall|k: int| 0 <= k < d.len() ==> is_ascii_digit(#[trigger] d[k])
}

/// `str::parse::<u32>`: an optional `+`, then one or more ASCII digits
/// whose value fits in 32 bits.
pub open spec fn u32_text(s: Seq<char>) -> Option<u32> {
    let d = if s.len() > 0 && s[0] == '+' {
        s.skip(1)
    } else {
        s
    };
    if d.len() > 0 && all_digits(d) && digits_value(d) <= u32::MAX {
        Some(digits_value(d) as u32)
    } else {
        None
    }
}

pub proof fn lemma_digits_value_nonneg(d: Seq<char>)
    requires
        all_digits(d),
    ensures
        digits_value(d) >= 0,
    decreases d.len(),
{
    if d.len() > 0 {
        assert(all_digits(d.drop_last())) by {
            assert forall|k: int| 0 <= k < d.drop_last().len() implies is_ascii_digit(
                #[trigger] d.drop_last()[k],
            ) by {
                assert(d.drop_last()[k] == d[k]);
            }
        }
        assert(is_ascii_digit(d[d.len() - 1]));
        lemma_digits_value_nonneg(d.drop_last());
    }
}

/// Parses a `u32` as `str::parse` does.
pub fn parse_u32(v: &Vec<char>) -> (r: Option<u32>)
    ensures
        r == u32_text(v@),
{
    let start: usize = if v.len() > 0 && v[0] == '+' {
        1
    } else {
        0
    };
    let ghost d = if v@.len() > 0 && v@[0] == '+' {
        v@.skip(1)
    } else {
        v@
    };
    if start >= v.len() {
        proof {
            assert(d.len() == 0);
        }
        return None;
    }
    let mut acc: u64 = 0;
    let mut over = false;
    let mut i: usize = start;
    while i < v.len()
        invariant
            start <= i <= v.len(),
            d =~= v@.skip(start as int),
            d == (if v@.len() > 0 && v@[0] == '+' {
                v@.skip(1)
            } else {
                v@
            }),
            all_digits(v@.subrange(start as int, i as int)),
            !over ==> acc == digits_value(v@.subrange(start as int, i as int)),
            !over ==> acc <= u32::MAX,
            over ==> digits_value(v@.subrange(start as int, i as int)) > u32::MAX,
        decreases v.len() - i,
    {
        let c = v[i];
        let ghost pre = v@.subrange(start as int, i as int);
        let ghost next = v@.subrange(start as int, i + 1);
        proof {
            assert(next.drop_last() =~= pre);
            assert(next.last() == c);
        }
        if !('0' <= c && c <= '9') {
            proof {
                assert(d[i - start] == c);
                assert(!is_ascii_digit(d[i - start]));
                assert(!all_digits(d));
                assert(u32_text(v@) is None);
            }
            return None;
        }
        proof {
            assert(all_digits(next)) by {
                assert forall|k: int| 0 <= k < next.len() implies is_ascii_digit(#[trigger] next[k]) by {
                    if k < pre.len() {
                        assert(next[k] == pre[k]);
                    }
                }
            }
            lemma_digits_value_nonneg(pre);
        }
        if !over {
            let dig: u64 = (c as u32 - '0' as u32) as u64;
            acc = acc * 10 + dig;
            if acc > 0xFFFF_FFFFu64 {
                over = true;
            }
        }
        i += 1;
    }
    proof {
        assert(v@.subrange(start as int, v.len() as int) =~= d);
    }
    if over {
        None
    } else {
        Some(acc as u32)
    }
}

pub open spec fn freq_text(u: Seq<char>) -> Option<Freq> {
    if u == "DAILY"@ {
        Some(Freq::Daily)
    } else if u == "WEEKLY"@ {
        Some(Freq::Weekly)
    } else if u == "MONTHLY"@ {
        Some(Freq::Monthly)
    } else if u == "YEARLY"@ {
        Some(Freq::Yearly)
    } else {
        None
    }
}

/// What the rule parser has collected; `failed` once a part is
/// malformed.
pub struct RuleScan {
    pub failed: bool,
    pub freq: Option<Freq>,
    pub interval: u32,
    pub count: Option<u32>,
    pub until: Option<Stamp>,
}

pub open spec fn rule_start() -> RuleScan {
    RuleScan { failed: false, freq: None, interval: 1, count: None, until: None }
}

/// One `;`-separated part: blank parts are skipped, a part without `=`
/// fails, keys are matched ASCII-case-insensitively and unknown keys
/// are ignored.
pub open spec fn rule_step(st: RuleScan, part: Seq<char>) -> RuleScan {
    if st.failed || trim(part).len() == 0 {
        st
    } else {
        match index_of(part, '=') {
            None => RuleScan { failed: true, ..st },
            Some(i) => {
                let k = upper_all(trim(part.take(i)));
                let v = trim(part.skip(i + 1));
                if k == "FREQ"@ {
                    match freq_text(upper_all(v)) {
                        Some(f) => RuleScan { freq: Some(f), ..st },
                        None => RuleScan { failed: true, ..st },
                    }
                } else if k == "INTERVAL"@ {
                    match u32_text(v) {
                        Some(n) => if n >= 1 {
                            RuleScan { interval: n, ..st }
                        } else {
                            RuleScan { failed: true, ..st }
                        },
                        None => RuleScan { failed: true, ..st },
                    }
                } else if k == "COUNT"@ {
                    match u32_text(v) {
                        Some(n) => RuleScan { count: Some(n), ..st },
                        None => RuleScan { failed: true, ..st },
                    }
                } else if k == "UNTIL"@ {
                    match until_text(v) {
                        Some(u) => RuleScan { until: Some(u), ..st },
                        None => RuleScan { failed: true, ..st },
                    }
                } else {
                    st
                }
            },
        }
    }
}

pub open spec fn rule_scan(parts: Seq<Seq<char>>) -> RuleScan
    decreases parts.len(),
{
    if parts.len() == 0 {
        rule_start()
    } else {
        rule_step(rule_scan(parts.drop_last()), parts.last())
    }
}

/// `FREQ=WEEKLY;INTERVAL=1;COUNT=10` as `(freq, interval, count,
/// until)`; `None` without a `FREQ` or with a malformed part.
pub open spec fn rrule_text(s: Seq<char>) -> Option<(Freq, u32, Option<u32>, Option<Stamp>)> {
    let st = rule_scan(split_char(s, ';'));
    if st.failed {
        None
    } else {
        match st.freq {
            Some(f) => Some((f, st.interval, st.count, st.until)),
            None => None,
        }
    }
}

fn freq_of(u: &Vec<char>) -> (r: Option<Freq>)
    ensures
        r == freq_text(u@),
{
    if same(u, &to_chars("DAILY")) {
        Some(Freq::Daily)
    } else if same(u, &to_chars("WEEKLY")) {
        Some(Freq::Weekly)
    } else if same(u, &to_chars("MONTHLY")) {
        Some(Freq::Monthly)
    } else if same(u, &to_chars("YEARLY")) {
        Some(Freq::Yearly)
    } else {
        None
    }
}

/// Parses `FREQ=WEEKLY;INTERVAL=1;COUNT=10` (case-insensitive keys).
/// `None` if there is no usable `FREQ` or a value is malformed.
pub fn parse_rrule(s: &str) -> (r: Option<RRule>)
    ensures
        match r {
            Some(rule) => rrule_text(s@) == Some(
                (rule.freq, rule.interval, rule.count, opt_view(rule.until)),
            ),
            None => rrule_text(s@) is None,
        },
        r matches Some(rule) ==> rule.interval >= 1 && (rule.until matches Some(u) ==> wf(u)),
{
    let parts = split_char_exec(&to_chars(s), ';');
    let mut freq: Option<Freq> = None;
    let mut interval: u32 = 1;
    let mut count: Option<u32> = None;
    let mut until: Option<UtcDateTime> = None;
    let mut i: usize = 0;
    while i < parts.len()
        invariant
            i <= parts.len(),
            views(parts@) == split_char(s@, ';'),
            ({
                let st = rule_scan(views(parts@).take(i as int));
                &&& !st.failed
                &&& st.freq == freq
                &&& st.interval == interval
                &&& st.count == count
                &&& st.until == opt_view(until)
            }),
            interval >= 1,
            until matches Some(u) ==> wf(u),
        decreases parts.len() - i,
    {
        let ghost t = views(parts@).take(i + 1);
        proof {
            assert(t.drop_last() =~= views(parts@).take(i as int));
            assert(t.last() == parts@[i as int]@);
        }
        let part = &parts[i];
        let tp = trim_of(part);
        if tp.len() > 0 {
            proof {
                lemma_index_of(part@, '=');
            }
            let eq = match index_of_exec(part, '=') {
                Some(e) => e,
                None => {
                    proof {
                        assert(rule_scan(t).failed);
                        assert(rule_scan(split_char(s@, ';')).failed) by {
                            lemma_rule_scan_failed(views(parts@), i + 1);
                        }
                    }
                    return None;
                },
            };
            let k = upper_all_exec(&trim_of(&slice_of(part, 0, eq)));
            let v = trim_of(&slice_of(part, eq + 1, part.len()));
            proof {
                assert(part@.subrange(0, eq as int) =~= part@.take(eq as int));
                assert(part@.subrange(eq + 1, part@.len() as int) =~= part@.skip(eq + 1));
            }
            if same(&k, &to_chars("FREQ")) {
                match freq_of(&upper_all_exec(&v)) {
                    Some(f) => {
                        freq = Some(f);
                    },
                    None => {
                        proof {
                            lemma_rule_scan_failed(views(parts@), i + 1);
                        }
                        return None;
                    },
                }
            } else if same(&k, &to_chars("INTERVAL")) {
                match parse_u32(&v) {
                    Some(n) => {
                        if n >= 1 {
                            interval = n;
                        } else {
                            proof {
                                lemma_rule_scan_failed(views(parts@), i + 1);
                            }
                            return None;
                        }
                    },
                    None => {
                        proof {
                            lemma_rule_scan_failed(views(parts@), i + 1);
                        }
                        return None;
                    },
                }
            } else if same(&k, &to_chars("COUNT")) {
                match parse_u32(&v) {
                    Some(n) => {
                        count = Some(n);
                    },
                    None => {
                        proof {
                            lemma_rule_scan_failed(views(parts@), i + 1);
                        }
                        return None;
                    },
                }
            } else if same(&k, &to_chars("UNTIL")) {
                match parse_until(string_of(&v).as_str()) {
                    Some(u) => {
                        until = Some(u);
                    },
                    None => {
                        proof {
                            lemma_rule_scan_failed(views(parts@), i + 1);
                        }
                        return None;
                    },
                }
            }
        }
        i += 1;
    }
    proof {
        assert(views(parts@).take(parts.len() as int) =~= views(parts@));
    }
    match freq {
        Some(f) => Some(RRule { freq: f, interval, count, until }),
        None => None,
    }
}

/// Once a part fails, the whole rule fails.
proof fn lemma_rule_scan_failed(parts: Seq<Seq<char>>, i: int)
    requires
        0 <= i <= parts.len(),
        rule_scan(parts.take(i)).failed,
    ensures
        rule_scan(parts).failed,
    decreases parts.len() - i,
{
    if i < parts.len() {
        assert(parts.take(i + 1).drop_last() =~= parts.take(i));
        lemma_rule_scan_failed(parts, i + 1);
    } else {
        assert(parts.take(i) =~= parts);
    }
}

// ---------- expansion ----------

/// What the expansion does with one computed occurrence.
#[derive(Debug, Clone, Copy, PartialEq, Eq, Structural)]
pub enum Step {
    /// Past `UNTIL` or the window's end (or not representable): the
    /// series ends here.
    Stop,
    /// Before the window: not reported, the series goes on.
    Skip,
    /// In the window: reported.
    Keep,
}

pub open spec fn step_of(cur: Option<Stamp>, until: Option<Stamp>, from: Stamp, to: Stamp) -> Step {
    match cur {
        None => Step::Stop,
        Some(c) => if (until matches Some(u) && earlier(u, c)) || earlier(to, c) {
            Step::Stop
        } else if earlier(c, from) {
            Step::Skip
        } else {
            Step::Keep
        },
    }
}

/// Decides what to do with one computed occurrence (`None` when it
/// could not be represented).
pub fn classify(
    cur: Option<UtcDateTime>,
    until: Option<UtcDateTime>,
    from: &UtcDateTime,
    to: &UtcDateTime,
) -> (r: Step)
    ensures
        r == step_of(opt_view(cur), opt_view(until), from@, to@),
{
    match cur {
        None => Step::Stop,
        Some(c) => {
            let past_until = match until {
                Some(u) => u.is_before(&c),
                None => false,
            };
            if past_until || to.is_before(&c) {
                Step::Stop
            } else if c.is_before(from) {
                Step::Skip
            } else {
                Step::Keep
            }
        },
    }
}

/// The rule's fields, `until` as a stamp.
pub open spec fn rule_fields(r: RRule) -> (Freq, u32, Option<u32>, Option<Stamp>) {
    (r.freq, r.interval, r.count, opt_view(r.until))
}

/// `days` days after `start`, where chrono can take that many days.
pub open spec fn day_step(start: UtcDateTime, days: int) -> Option<Stamp> {
    if i64::MIN <= days <= i64::MAX {
        days_later(start@, days)
    } else {
        None
    }
}

/// Occurrence `i` of the series, computed from the series start (so a
/// clamped month does not drag later months off the start's day).
pub open spec fn occurrence(
    start: UtcDateTime,
    rule: (Freq, u32, Option<u32>, Option<Stamp>),
    i: int,
) -> Option<Stamp> {
    let step = rule.1 * i;
    match rule.0 {
        Freq::Daily => day_step(start, step),
        Freq::Weekly => day_step(start, 7 * step),
        Freq::Monthly => Some(shifted_months(start, step)@),
        Freq::Yearly => Some(shifted_months(start, 12 * step)@),
    }
}

/// The reported occurrences from index `i` on: the series ends at
/// `COUNT`, past index `cap`, or at the first occurrence past `UNTIL` or
/// past `to`; occurrences before `from` are passed over.
pub open spec fn series(
    start: UtcDateTime,
    rule: (Freq, u32, Option<u32>, Option<Stamp>),
    from: Stamp,
    to: Stamp,
    cap: int,
    i: int,
) -> Seq<Stamp>
    decreases cap + 1 - i,
{
    if i > cap || (rule.2 matches Some(c) && i >= c) {
        seq![]
    } else {
        match step_of(occurrence(start, rule, i), rule.3, from, to) {
            Step::Stop => seq![],
            Step::Skip => series(start, rule, from, to, cap, i + 1),
            Step::Keep => seq![occurrence(start, rule, i)->0] + series(
                start,
                rule,
                from,
                to,
                cap,
                i + 1,
            ),
        }
    }
}

pub open spec fn stamps(v: Seq<UtcDateTime>) -> Seq<Stamp> {
    v.map_values(|t: UtcDateTime| t@)
}

fn occurrence_exec(start: &UtcDateTime, rule: &RRule, i: u64) -> (r: Option<UtcDateTime>)
    requires
        wf(*start),
        i < 0x1_0000_0000,
    ensures
        opt_view(r) == occurrence(*start, rule_fields(*rule), i as int),
{
    let iv: u64 = rule.interval as u64;
    proof {
        assert(iv * i < 0x1_0000_0000_0000_0000) by (nonlinear_arith)
            requires
                iv < 0x1_0000_0000,
                i < 0x1_0000_0000,
        ;
    }
    let step: u64 = iv * i;
    match rule.freq {
        Freq::Daily => {
            if step <= 0x7FFF_FFFF_FFFF_FFFFu64 {
                chrono_add_days(start, step as i64)
            } else {
                None
            }
        },
        Freq::Weekly => {
            if step <= 0x1249_2492_4924_9249u64 {
                chrono_add_days(start, (7 * step) as i64)
            } else {
                None
            }
        },
        Freq::Monthly => Some(add_months(start, step as i128)),
        Freq::Yearly => Some(add_months(start, 12 * (step as i128))),
    }
}

/// Expands a series starting at `start` into the occurrence start times
/// that fall within `[from, to]` (inclusive), bounded by `COUNT`,
/// `UNTIL` and the hard `cap`.
pub fn expand(
    start: &UtcDateTime,
    rule: &RRule,
    from: &UtcDateTime,
    to: &UtcDateTime,
    cap: usize,
) -> (out: Vec<UtcDateTime>)
    requires
        wf(*start),
        cap < 0xFFFF_FFFF,
    ensures
        stamps(out@) == series(*start, rule_fields(*rule), from@, to@, cap as int, 0),
{
    let ghost rf = rule_fields(*rule);
    let ghost whole = series(*start, rf, from@, to@, cap as int, 0);
    let mut out: Vec<UtcDateTime> = Vec::new();
    let mut i: u64 = 0;
    loop
        invariant
            i <= cap + 1,
            wf(*start),
            cap < 0xFFFF_FFFF,
            rf == rule_fields(*rule),
            whole == series(*start, rf, from@, to@, cap as int, 0),
            stamps(out@) + series(*start, rf, from@, to@, cap as int, i as int) == whole,
        ensures
            stamps(out@) == whole,
        decreases cap + 1 - i,
    {
        let counted = match rule.count {
            Some(c) => i >= c as u64,
            None => false,
        };
        if counted || i > cap as u64 {
            proof {
                assert(stamps(out@) + Seq::<Stamp>::empty() =~= stamps(out@));
            }
            break;
        }
        let cur = occurrence_exec(start, rule, i);
        match classify(cur, rule.until, from, to) {
            Step::Stop => {
                proof {
                    assert(stamps(out@) + Seq::<Stamp>::empty() =~= stamps(out@));
                }
                break;
            },
            Step::Skip => {},
            Step::Keep => {
                let ghost before = out@;
                let c = cur.unwrap();
                out.push(c);
                proof {
                    assert(stamps(out@) =~= stamps(before).push(c@));
                    let rest = series(*start, rf, from@, to@, cap as int, i + 1);
                    assert(stamps(before).push(c@) + rest =~= stamps(before) + (seq![c@] + rest));
                }
            },
        }
        i += 1;
    }
    out
}

/// The window test of a non-recurring event: `start` alone when it lies
/// in `[from, to]`.
pub open spec fn single(start: Stamp, from: Stamp, to: Stamp) -> Seq<Stamp> {
    if !earlier(start, from) && !earlier(to, start) {
        seq![start]
    } else {
        seq![]
    }
}

/// The series cap `occurrences` expands with.
pub const OCCURRENCE_CAP: usize = 10_000;

/// Occurrences of an event in `[from, to]`: the expanded series when
/// the recurrence parses, else the single `start` if it falls in the
/// window.
pub fn occurrences(
    start: &UtcDateTime,
    recurrence: Option<&str>,
    from: &UtcDateTime,
    to: &UtcDateTime,
) -> (out: Vec<UtcDateTime>)
    requires
        wf(*start),
    ensures
        stamps(out@) == match recurrence {
            Some(s) => match rrule_text(s@) {
                Some(rule) => series(*start, rule, from@, to@, OCCURRENCE_CAP as int, 0),
                None => single(start@, from@, to@),
            },
            None => single(start@, from@, to@),
        },
{
    let parsed = match recurrence {
        Some(s) => parse_rrule(s),
        None => None,
    };
    match parsed {
        Some(rule) => expand(start, &rule, from, to, OCCURRENCE_CAP),
        None => {
            if !start.is_before(from) && !to.is_before(start) {
                let v = vec![*start];
                proof {
                    assert(stamps(v@) =~= seq![start@]);
                }
                v
            } else {
                let v: Vec<UtcDateTime> = Vec::new();
                proof {
                    assert(stamps(v@) =~= Seq::<Stamp>::empty());
                }
                v
            }
        },
    }
}

/// An instant that exists and lies in the window `[from, to]`.
pub open spec fn in_window(o: Option<Stamp>, from: Stamp, to: Stamp) -> bool {
    o matches Some(x) && !earlier(x, from) && !earlier(to, x)
}

/// A weekly series with `INTERVAL` n and `COUNT` c, no `UNTIL`, whose
/// occurrences all fall inside the window (and within chrono's range):
/// the reported occurrences are exactly the instants 0, 7n, 14n, ...,
/// 7n(c-1) days after the start, as chrono adds days.
pub proof fn lemma_weekly_series(
    start: UtcDateTime,
    rule: (Freq, u32, Option<u32>, Option<Stamp>),
    from: Stamp,
    to: Stamp,
    cap: int,
)
    requires
        rule.0 == Freq::Weekly,
        rule.3 is None,
        rule.2 is Some,
        rule.2->0 <= cap + 1,
        forall|k: int|
            0 <= k < rule.2->0 ==> 7 * rule.1 * k <= i64::MAX && in_window(
                #[trigger] days_later(start@, 7 * rule.1 * k),
                from,
                to,
            ),
    ensures
        series(start, rule, from, to, cap, 0) == Seq::new(
            (rule.2->0) as nat,
            |k: int| days_later(start@, 7 * rule.1 * k)->0,
        ),
{
    let c = rule.2->0 as int;
    lemma_weekly_series_from(start, rule, from, to, cap, 0);
    assert(Seq::new((c - 0) as nat, |k: int| days_later(start@, 7 * rule.1 * (0 + k))->0) =~= Seq::new(
        c as nat,
        |k: int| days_later(start@, 7 * rule.1 * k)->0,
    ));
}

proof fn lemma_weekly_series_from(
    start: UtcDateTime,
    rule: (Freq, u32, Option<u32>, Option<Stamp>),
    from: Stamp,
    to: Stamp,
    cap: int,
    i: int,
)
    requires
        rule.0 == Freq::Weekly,
        rule.3 is None,
        rule.2 is Some,
        rule.2->0 <= cap + 1,
        0 <= i <= rule.2->0,
        forall|k: int|
            0 <= k < rule.2->0 ==> 7 * rule.1 * k <= i64::MAX && in_window(
                #[trigger] days_later(start@, 7 * rule.1 * k),
                from,
                to,
            ),
    ensures
        series(start, rule, from, to, cap, i) == Seq::new(
            (rule.2->0 - i) as nat,
            |k: int| days_later(start@, 7 * rule.1 * (i + k))->0,
        ),
    decreases rule.2->0 - i,
{
    let c = rule.2->0 as int;
    let n = rule.1 as int;
    if i >= c {
        assert(Seq::new((c - i) as nat, |k: int| days_later(start@, 7 * n * (i + k))->0) =~= Seq::<Stamp>::empty());
    } else {
        lemma_weekly_series_from(start, rule, from, to, cap, i + 1);
        assert(7 * n * i <= i64::MAX);
        assert(7 * n * i >= 0) by (nonlinear_arith)
            requires
                n >= 0,
                i >= 0,
        ;
        assert(7 * (n * i) == 7 * n * i) by (nonlinear_arith);
        assert(rule.1 * i == n * i);
        let d = days_later(start@, 7 * n * i);
        assert(occurrence(start, rule, i) == d);
        assert(in_window(days_later(start@, 7 * rule.1 * i), from, to));
        let x = d->0;
        assert(step_of(occurrence(start, rule, i), rule.3, from, to) == Step::Keep);
        let rest = Seq::new((c - (i + 1)) as nat, |k: int| days_later(start@, 7 * n * ((i + 1) + k))->0);
        let whole = Seq::new((c - i) as nat, |k: int| days_later(start@, 7 * n * (i + k))->0);
        assert forall|k: int| 0 <= k < whole.len() implies whole[k] == (seq![x] + rest)[k] by {
            if k > 0 {
                assert(i + k == (i + 1) + (k - 1));
            }
        }
        assert(whole =~= seq![x] + rest);
    }
}

/// Every reported occurrence lies in the window `[from, to]` and not
/// after `UNTIL`; from index `i` on at most `COUNT - i` and at most
/// `cap + 1 - i` are reported (so `COUNT` bounds the whole series,
/// whatever the window).
pub proof fn lemma_series_bounds(
    start: UtcDateTime,
    rule: (Freq, u32, Option<u32>, Option<Stamp>),
    from: Stamp,
    to: Stamp,
    cap: int,
    i: int,
)
    requires
        0 <= i,
    ensures
        forall|k: int|
            0 <= k < series(start, rule, from, to, cap, i).len() ==> {
                let e = #[trigger] series(start, rule, from, to, cap, i)[k];
                &&& !earlier(e, from)
                &&& !earlier(to, e)
                &&& (rule.3 matches Some(u) ==> !earlier(u, e))
            },
        series(start, rule, from, to, cap, i).len() <= if i <= cap + 1 {
            cap + 1 - i
        } else {
            0
        },
        rule.2 matches Some(c) ==> series(start, rule, from, to, cap, i).len() <= if i <= c {
            c - i
        } else {
            0
        },
    decreases cap + 1 - i,
{
    if i > cap || (rule.2 matches Some(c) && i >= c) {
    } else {
        lemma_series_bounds(start, rule, from, to, cap, i + 1);
        let rest = series(start, rule, from, to, cap, i + 1);
        if step_of(occurrence(start, rule, i), rule.3, from, to) == Step::Keep {
            let e = occurrence(start, rule, i)->0;
            let whole = series(start, rule, from, to, cap, i);
            assert(whole =~= seq![e] + rest);
            assert forall|k: int| 0 <= k < whole.len() implies {
                let x = #[trigger] whole[k];
                &&& !earlier(x, from)
                &&& !earlier(to, x)
                &&& (rule.3 matches Some(u) ==> !earlier(u, x))
            } by {
                if k > 0 {
                    assert(whole[k] == rest[k - 1]);
                }
            }
        }
    }
}

} // verus!
