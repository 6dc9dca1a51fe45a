//! Calendar dates: reading the date forms the command line accepts, and
//! writing dates plainly or relative to today.
//!
//! A `Date` is held as its day number in the proleptic Gregorian calendar
//! (0001-01-01 is day 1), the numbering that `chrono::NaiveDate` uses; the
//! calendar arithmetic itself is chrono's.
use vstd::prelude::*;

use chrono::{DateTime, Datelike, Days, NaiveDate, Utc};

use crate::error::ToroError;
use crate::text::{
    lemma_digits_value_lt, lemma_first_index_none, lemma_nat_digits_are_digits, lemma_pad_left_len, pow10,
    all_digits, chars_eq_str, chars_of, digits_value, find_char_from, first_index_from, i64_chars,
    int_str, is_digit, lemma_first_index_from, lemma_first_index_is, lemma_pad_left_digits, nat_digits, pad_left,
    pad_left_chars, parse_i32, parse_signed, parse_u32, parse_u64, parse_unsigned, slice_from,
    slice_range, string_from_chars, string_from_str, append_chars,
};

verus! {

/// Day number of -262143-01-01, the first date `chrono::NaiveDate` holds.
pub open spec fn min_day_number() -> int {
    -95746129
}

/// Day number of 262142-12-31, the last date `chrono::NaiveDate` holds.
pub open spec fn max_day_number() -> int {
    95745399
}

pub open spec fn in_range(n: int) -> bool {
    min_day_number() <= n <= max_day_number()
}

pub open spec fn min_year() -> int {
    -262143
}

pub open spec fn max_year() -> int {
    262142
}

pub open spec fn is_leap_year(y: int) -> bool {
    y % 4 == 0 && (y % 100 != 0 || y % 400 == 0)
}

pub open spec fn days_in_month(y: int, m: int) -> int {
    if m == 2 {
        if is_leap_year(y) { 29 } else { 28 }
    } else if m == 4 || m == 6 || m == 9 || m == 11 {
        30
    } else {
        31
    }
}

/// Whether year `y`, month `m`, day `d` name a date that `chrono::NaiveDate` holds.
pub open spec fn valid_ymd(y: int, m: int, d: int) -> bool {
    &&& min_year() <= y <= max_year()
    &&& 1 <= m <= 12
    &&& 1 <= d <= days_in_month(y, m)
}

/// Year, month and day of the date with day number `n` in the proleptic
/// Gregorian calendar, as chrono computes them. Days are counted from
/// 0000-03-01 in eras of 400 years (146097 days), each year starting in
/// March so that the leap day comes last; `/` rounds down.
#[verifier::opaque]
pub open spec fn spec_ymd(n: int) -> (int, int, int) {
    let z = n + 305;
    let era = z / 146097;
    let doe = z - era * 146097;
    let yoe = (doe - doe / 1460 + doe / 36524 - doe / 146096) / 365;
    let doy = doe - (365 * yoe + yoe / 4 - yoe / 100);
    let mp = (5 * doy + 2) / 153;
    let d = doy - (153 * mp + 2) / 5 + 1;
    let m = if mp < 10 { mp + 3 } else { mp - 9 };
    let y = yoe + era * 400 + if m <= 2 { 1int } else { 0int };
    (y, m, d)
}

/// Day 1 is 0001-01-01, and 1970-01-01 is day 719163; the day after
/// 2024-01-31 is 2024-02-01, and the day after 2024-02-28 is 2024-02-29.
pub proof fn lemma_calendar_examples()
    ensures
        spec_ymd(1) == (1int, 1int, 1int),
        spec_ymd(719163) == (1970int, 1int, 1int),
        spec_ymd(738916) == (2024int, 1int, 31int),
        spec_ymd(738917) == (2024int, 2int, 1int),
        spec_ymd(738944) == (2024int, 2int, 28int),
        spec_ymd(738945) == (2024int, 2int, 29int),
        spec_ymd(738946) == (2024int, 3int, 1int),
{
    reveal(spec_ymd);
    assert(spec_ymd(1) == (1int, 1int, 1int));
    assert(spec_ymd(719163) == (1970int, 1int, 1int));
    assert(spec_ymd(738916) == (2024int, 1int, 31int));
    assert(spec_ymd(738917) == (2024int, 2int, 1int));
    assert(spec_ymd(738944) == (2024int, 2int, 28int));
    assert(spec_ymd(738945) == (2024int, 2int, 29int));
    assert(spec_ymd(738946) == (2024int, 3int, 1int));
}

/// The day number of a valid calendar date.
pub open spec fn day_number(y: int, m: int, d: int) -> int {
    choose|n: int| in_range(n) && spec_ymd(n) == (y, m, d)
}

/// A calendar date.
#[derive(Clone, Copy, Debug, PartialEq, Eq, Hash, Structural)]
pub struct Date {
    pub(crate) days: i32,
}

impl View for Date {
    type V = int;

    closed spec fn view(&self) -> int {
        self.days as int
    }
}

/// No other day number in range has the same year, month and day as `n`.
pub open spec fn ymd_unique(n: int) -> bool {
    forall|k: int| in_range(k) && spec_ymd(k) == spec_ymd(n) ==> k == n
}

/// Day number `n` is one of the dates chrono holds: in range, with a valid
/// year, month and day that no other day number in range has.
pub open spec fn chrono_date(n: int) -> bool {
    in_range(n) && ymd_unique(n) && valid_ymd(spec_ymd(n).0, spec_ymd(n).1, spec_ymd(n).2)
}

impl Date {
    /// The date is one that `chrono::NaiveDate` holds.
    pub open spec fn wf(self) -> bool {
        chrono_date(self@)
    }

    #[verifier::type_invariant]
    pub open spec fn inv(self) -> bool {
        self.wf()
    }
}

// ---------------------------------------------------------------------------
// chrono
// ---------------------------------------------------------------------------

/// Today's date in UTC, as `Utc::now` computes it: `SystemTime::now()` since
/// the Unix epoch, made a `DateTime` by `DateTime::from_timestamp`, without
/// `Utc::now`'s panics. `None` when the clock reads before 1970 or past the
/// dates chrono holds. Which day it is depends on the clock and is not stated;
/// only that it is a date chrono holds (in range, with a valid year, month and
/// day that no other day number has).
#[verifier::external_body]
pub(crate) fn chrono_today() -> (r: Option<Date>)
    ensures
        r matches Some(d) ==> d.wf(),
{
    let since = std::time::SystemTime::now().duration_since(std::time::UNIX_EPOCH).ok()?;
    let secs = i64::try_from(since.as_secs()).ok()?;
    let now = DateTime::<Utc>::from_timestamp(secs, since.subsec_nanos())?;
    Some(Date { days: now.date_naive().num_days_from_ce() })
}

/// `NaiveDate::year`, `month` and `day` of the date (made by
/// `NaiveDate::from_num_days_from_ce_opt`): they name a valid calendar date,
/// `spec_ymd` of the day number.
#[verifier::external_body]
pub(crate) fn chrono_ymd(d: Date) -> (r: (i32, u32, u32))
    requires
        d.wf(),
    ensures
        spec_ymd(d@) == (r.0 as int, r.1 as int, r.2 as int),
        valid_ymd(r.0 as int, r.1 as int, r.2 as int),
{
    let nd = NaiveDate::from_num_days_from_ce_opt(d.days).unwrap();
    (nd.year(), nd.month(), nd.day())
}

/// `NaiveDate::default()`, which its documentation gives as 1970-01-01.
/// Like every date chrono holds, its fields are valid and no other day number has them.
#[verifier::external_body]
pub(crate) fn chrono_default() -> (r: Date)
    ensures
        r.wf(),
        spec_ymd(r@) == (1970int, 1int, 1int),
{
    Date { days: NaiveDate::default().num_days_from_ce() }
}

/// `Datelike::with_year`: the same month and day in year `y`, if that date exists
/// (a date chrono holds: in range, with valid fields that no other day number has).
#[verifier::external_body]
pub(crate) fn chrono_with_year(d: Date, y: i32) -> (r: Option<Date>)
    requires
        d.wf(),
    ensures
        r is Some <==> valid_ymd(y as int, spec_ymd(d@).1, spec_ymd(d@).2),
        r matches Some(x) ==> x.wf() && spec_ymd(x@) == (y as int, spec_ymd(d@).1, spec_ymd(d@).2),
{
    let nd = NaiveDate::from_num_days_from_ce_opt(d.days).unwrap();
    nd.with_year(y).map(|x| Date { days: x.num_days_from_ce() })
}

/// `Datelike::with_month`: the same year and day in month `m`, if that date exists
/// (a date chrono holds: in range, with valid fields that no other day number has).
#[verifier::external_body]
pub(crate) fn chrono_with_month(d: Date, m: u32) -> (r: Option<Date>)
    requires
        d.wf(),
    ensures
        r is Some <==> valid_ymd(spec_ymd(d@).0, m as int, spec_ymd(d@).2),
        r matches Some(x) ==> x.wf() && spec_ymd(x@) == (spec_ymd(d@).0, m as int, spec_ymd(d@).2),
{
    let nd = NaiveDate::from_num_days_from_ce_opt(d.days).unwrap();
    nd.with_month(m).map(|x| Date { days: x.num_days_from_ce() })
}

/// `Datelike::with_day`: the same year and month on day `day`, if that date exists
/// (a date chrono holds: in range, with valid fields that no other day number has).
#[verifier::external_body]
pub(crate) fn chrono_with_day(d: Date, day: u32) -> (r: Option<Date>)
    requires
        d.wf(),
    ensures
        r is Some <==> valid_ymd(spec_ymd(d@).0, spec_ymd(d@).1, day as int),
        r matches Some(x) ==> x.wf() && spec_ymd(x@) == (spec_ymd(d@).0, spec_ymd(d@).1, day as int),
{
    let nd = NaiveDate::from_num_days_from_ce_opt(d.days).unwrap();
    nd.with_day(day).map(|x| Date { days: x.num_days_from_ce() })
}

/// `NaiveDate::checked_add_days`: `n` days later, if that date is in range
/// (a date chrono holds: with valid fields that no other day number has).
#[verifier::external_body]
pub(crate) fn chrono_add_days(d: Date, n: u64) -> (r: Option<Date>)
    requires
        d.wf(),
    ensures
        r is Some <==> in_range(d@ + n),
        r matches Some(x) ==> x@ == d@ + n && x.wf(),
{
    let nd = NaiveDate::from_num_days_from_ce_opt(d.days).unwrap();
    nd.checked_add_days(Days::new(n)).map(|x| Date { days: x.num_days_from_ce() })
}

/// `NaiveDate::checked_sub_days`: `n` days earlier, if that date is in range
/// (a date chrono holds: with valid fields that no other day number has).
#[verifier::external_body]
pub(crate) fn chrono_sub_days(d: Date, n: u64) -> (r: Option<Date>)
    requires
        d.wf(),
    ensures
        r is Some <==> in_range(d@ - n),
        r matches Some(x) ==> x@ == d@ - n && x.wf(),
{
    let nd = NaiveDate::from_num_days_from_ce_opt(d.days).unwrap();
    nd.checked_sub_days(Days::new(n)).map(|x| Date { days: x.num_days_from_ce() })
}

/// `(a - b).num_days()`: the number of days from `b` to `a`.
#[verifier::external_body]
pub(crate) fn chrono_num_days(a: Date, b: Date) -> (r: i64)
    requires
        a.wf(),
        b.wf(),
    ensures
        r == a@ - b@,
{
    let na = NaiveDate::from_num_days_from_ce_opt(a.days).unwrap();
    let nb = NaiveDate::from_num_days_from_ce_opt(b.days).unwrap();
    (na - nb).num_days()
}

/// Integer division truncating toward zero, as Rust's `/` on integers does.
pub open spec fn div_trunc(x: int, y: int) -> int {
    if x >= 0 { x / y } else { -((-x) / y) }
}

/// `(a - b).num_weeks()`: the number of whole weeks from `b` to `a`, toward zero.
#[verifier::external_body]
pub(crate) fn chrono_num_weeks(a: Date, b: Date) -> (r: i64)
    requires
        a.wf(),
        b.wf(),
    ensures
        r == div_trunc(a@ - b@, 7),
{
    let na = NaiveDate::from_num_days_from_ce_opt(a.days).unwrap();
    let nb = NaiveDate::from_num_days_from_ce_opt(b.days).unwrap();
    (na - nb).num_weeks()
}

// ---------------------------------------------------------------------------
// Dates from calendar fields
// ---------------------------------------------------------------------------

impl Date {
    /// The date with the given year, month and day, if it exists.
    pub fn from_ymd(y: i32, m: u32, d: u32) -> (r: Option<Date>)
        ensures
            r is Some <==> valid_ymd(y as int, m as int, d as int),
            r matches Some(x) ==> x.wf() && spec_ymd(x@) == (y as int, m as int, d as int)
                && x@ == day_number(y as int, m as int, d as int),
    {
        let base = chrono_default();
        let a = match chrono_with_year(base, y) {
            Some(a) => a,
            None => return None,
        };
        let b = match chrono_with_month(a, m) {
            Some(b) => b,
            None => {
                assert(!valid_ymd(y as int, m as int, d as int));
                return None;
            },
        };
        let r = chrono_with_day(b, d);
        proof {
            if let Some(x) = r {
                lemma_day_number_of(x);
            }
        }
        r
    }

    /// Year, month and day of the date.
    pub fn ymd(&self) -> (r: (i32, u32, u32))
        requires
            self.wf(),
        ensures
            spec_ymd(self@) == (r.0 as int, r.1 as int, r.2 as int),
            valid_ymd(r.0 as int, r.1 as int, r.2 as int),
    {
        chrono_ymd(*self)
    }

    /// Whether the two dates are the same day.
    pub fn same_day(&self, other: &Date) -> (r: bool)
        ensures
            r == (self@ == other@),
    {
        self.days == other.days
    }

    /// Whether `self` comes after `other`.
    pub fn is_after(&self, other: &Date) -> (r: bool)
        ensures
            r == (self@ > other@),
    {
        self.days > other.days
    }

    /// The day number (0001-01-01 is day 1).
    pub fn day_number(&self) -> (r: i32)
        ensures
            r == self@,
    {
        self.days
    }
}

/// Today's date, from the clock; `None` when the clock reads a time for which
/// there is no date.
pub fn today() -> (r: Option<Date>)
    ensures
        r matches Some(d) ==> d.wf(),
{
    chrono_today()
}

pub proof fn lemma_day_number_of(x: Date)
    requires
        x.wf(),
    ensures
        x@ == day_number(spec_ymd(x@).0, spec_ymd(x@).1, spec_ymd(x@).2),
{
    let t = spec_ymd(x@);
    assert(in_range(x@) && spec_ymd(x@) == (t.0, t.1, t.2));
}

/// Two dates are the same date exactly when they are the same day.
pub proof fn lemma_date_eq(a: Date, b: Date)
    ensures
        a@ == b@ <==> a == b,
{
}

// ---------------------------------------------------------------------------
// Reading dates
// ---------------------------------------------------------------------------

/// How reading a date ends.
pub enum DateOutcome {
    /// The date with this day number.
    Day(int),
    /// The text is not a date (`ToroError::DateInputError`).
    BadInput,
    /// The date lies outside the range chrono holds (`ToroError::DateOverflowError`).
    Overflow,
}

pub open spec fn shifted(n: int) -> DateOutcome {
    if in_range(n) { DateOutcome::Day(n) } else { DateOutcome::Overflow }
}

/// `s.splitn(3, "-")`: up to three pieces, the last one holding any further dashes.
pub open spec fn splitn3_dash(s: Seq<char>) -> Seq<Seq<char>> {
    match first_index_from(s, '-', 0) {
        None => seq![s],
        Some(i) => match first_index_from(s, '-', i + 1) {
            None => seq![s.take(i), s.skip(i + 1)],
            Some(j) => seq![s.take(i), s.subrange(i + 1, j), s.skip(j + 1)],
        },
    }
}

/// The year, month and day that `s` spells as `year-month-day`, if it does.
pub open spec fn ymd_fields(s: Seq<char>) -> Option<(int, int, int)> {
    let parts = splitn3_dash(s);
    if parts.len() < 3 {
        None
    } else {
        match (
            parse_signed(parts[0], i32::MIN as int, i32::MAX as int),
            parse_unsigned(parts[1], u32::MAX as int),
            parse_unsigned(parts[2], u32::MAX as int),
        ) {
            (Some(y), Some(m), Some(d)) => Some((y, m as int, d as int)),
            _ => None,
        }
    }
}

/// A date written `year-month-day`.
pub open spec fn ymd_outcome(s: Seq<char>) -> DateOutcome {
    match ymd_fields(s) {
        Some((y, m, d)) => if valid_ymd(y, m, d) {
            DateOutcome::Day(day_number(y, m, d))
        } else {
            DateOutcome::BadInput
        },
        None => DateOutcome::BadInput,
    }
}

/// `s` names a date relative to today (or is not read as `year-month-day` for
/// ending like one).
pub open spec fn relative_form(s: Seq<char>) -> bool {
    s == "today"@ || s == "tomorrow"@ || s == "yesterday"@ || (s.len() > 0 && (s.last() == 'd' || s.last() == 'w'))
}

/// The date that `s` names when today has day number `t`: `today`, `tomorrow`,
/// `yesterday`, `<n>d` (n days from today), `<n>w` (n weeks from today), or
/// `year-month-day`.
pub open spec fn date_outcome(s: Seq<char>, t: int) -> DateOutcome {
    if s == "today"@ {
        DateOutcome::Day(t)
    } else if s == "tomorrow"@ {
        shifted(t + 1)
    } else if s == "yesterday"@ {
        shifted(t - 1)
    } else if s.len() > 0 && s.last() == 'd' {
        match parse_unsigned(s.drop_last(), u64::MAX as int) {
            Some(n) => shifted(t + n),
            None => DateOutcome::BadInput,
        }
    } else if s.len() > 0 && s.last() == 'w' {
        match parse_unsigned(s.drop_last(), u64::MAX as int) {
            Some(n) => if n * 7 > u64::MAX { DateOutcome::Overflow } else { shifted(t + n * 7) },
            None => DateOutcome::BadInput,
        }
    } else {
        ymd_outcome(s)
    }
}

/// Whether `r` is what reading a date ends with for the given outcome.
pub open spec fn date_result_matches(r: Result<Date, ToroError>, o: DateOutcome, input: Seq<char>) -> bool {
    match o {
        DateOutcome::Day(n) => r matches Ok(d) && d@ == n && d.wf(),
        DateOutcome::BadInput => r matches Err(ToroError::DateInputError(m)) && m@ == input,
        DateOutcome::Overflow => r matches Err(ToroError::DateOverflowError),
    }
}

fn bad_input(input: &[char]) -> (r: ToroError)
    ensures
        r matches ToroError::DateInputError(m) && m@ == input@,
{
    ToroError::DateInputError(string_from_chars(input))
}

fn shift_days(t: Date, n: u64) -> (r: Result<Date, ToroError>)
    requires
        t.wf(),
    ensures
        r matches Ok(d) ==> d.wf(),
        match shifted(t@ + n) {
            DateOutcome::Day(k) => r matches Ok(d) && d@ == k,
            _ => r matches Err(ToroError::DateOverflowError),
        },
{
    match chrono_add_days(t, n) {
        Some(d) => Ok(d),
        None => Err(ToroError::DateOverflowError),
    }
}

fn sub_one_day(t: Date) -> (r: Result<Date, ToroError>)
    requires
        t.wf(),
    ensures
        r matches Ok(d) ==> d.wf(),
        match shifted(t@ - 1) {
            DateOutcome::Day(k) => r matches Ok(d) && d@ == k,
            _ => r matches Err(ToroError::DateOverflowError),
        },
{
    match chrono_sub_days(t, 1) {
        Some(d) => Ok(d),
        None => Err(ToroError::DateOverflowError),
    }
}

/// Reads a date written `year-month-day`.
fn parse_ymd(s: &[char]) -> (r: Result<Date, ToroError>)
    ensures
        date_result_matches(r, ymd_outcome(s@), s@),
        r matches Ok(d) ==> ymd_fields(s@) == Some(spec_ymd(d@)),
{
    proof {
        lemma_first_index_from(s@, '-', 0);
    }
    let i = match find_char_from(s, '-', 0) {
        Some(i) => i,
        None => return Err(bad_input(s)),
    };
    assert(first_index_from(s@, '-', 0) == Some(i as int));
    assert(i < s.len());
    proof {
        lemma_first_index_from(s@, '-', i + 1);
    }
    let j = match find_char_from(s, '-', i + 1) {
        Some(j) => j,
        None => return Err(bad_input(s)),
    };
    let ys = slice_range(s, 0, i);
    let ms = slice_range(s, i + 1, j);
    let ds = slice_from(s, j + 1);
    let ghost parts = splitn3_dash(s@);
    assert(parts[0] =~= ys@);
    assert(parts[1] =~= ms@);
    assert(parts[2] =~= ds@);
    let y = match parse_i32(ys.as_slice()) {
        Some(y) => y,
        None => return Err(bad_input(s)),
    };
    let m = match parse_u32(ms.as_slice()) {
        Some(m) => m,
        None => return Err(bad_input(s)),
    };
    let d = match parse_u32(ds.as_slice()) {
        Some(d) => d,
        None => return Err(bad_input(s)),
    };
    match Date::from_ymd(y, m, d) {
        Some(x) => Ok(x),
        None => Err(bad_input(s)),
    }
}

/// Reads a date given as characters, with today being `t`.
fn parse_date_chars(s: &[char], t: Date) -> (r: Result<Date, ToroError>)
    requires
        t.wf(),
    ensures
        date_result_matches(r, date_outcome(s@, t@), s@),
        !relative_form(s@) ==> (r matches Ok(d) ==> ymd_fields(s@) == Some(spec_ymd(d@))),
{
    if chars_eq_str(s, "today") {
        return Ok(t);
    }
    if chars_eq_str(s, "tomorrow") {
        return shift_days(t, 1);
    }
    if chars_eq_str(s, "yesterday") {
        return sub_one_day(t);
    }
    let n = s.len();
    if n > 0 && s[n - 1] == 'd' {
        let head = slice_range(s, 0, n - 1);
        assert(head@ =~= s@.drop_last());
        return match parse_u64(head.as_slice()) {
            Some(k) => shift_days(t, k),
            None => Err(bad_input(s)),
        };
    }
    if n > 0 && s[n - 1] == 'w' {
        let head = slice_range(s, 0, n - 1);
        assert(head@ =~= s@.drop_last());
        return match parse_u64(head.as_slice()) {
            Some(k) => match k.checked_mul(7) {
                Some(days) => shift_days(t, days),
                None => Err(ToroError::DateOverflowError),
            },
            None => Err(bad_input(s)),
        };
    }
    parse_ymd(s)
}

/// Reads the date that `input` names when today is `today`: `today`,
/// `tomorrow`, `yesterday`, `<n>d`, `<n>w` or `year-month-day`.
pub fn parse_date_on(input: &str, today: Date) -> (r: Result<Date, ToroError>)
    ensures
        date_result_matches(r, date_outcome(input@, today@), input@),
        !relative_form(input@) ==> (r matches Ok(d) ==> ymd_fields(input@) == Some(spec_ymd(d@))),
{
    proof {
        use_type_invariant(&today);
    }
    let s = chars_of(input);
    parse_date_chars(s.as_slice(), today)
}

/// Whether `s` names a date relative to today (`relative_form`).
pub fn is_relative_form(s: &[char]) -> (r: bool)
    ensures
        r == relative_form(s@),
{
    chars_eq_str(s, "today") || chars_eq_str(s, "tomorrow") || chars_eq_str(s, "yesterday") || (s.len() > 0 && (
    s[s.len() - 1] == 'd' || s[s.len() - 1] == 'w'))
}

/// A date in no relative form reads the same whatever day today is.
pub proof fn lemma_absolute_any_day(s: Seq<char>, t1: int, t2: int)
    requires
        !relative_form(s),
    ensures
        date_outcome(s, t1) == date_outcome(s, t2),
{
}

/// Reads the date that `input` names. Only a relative form reads today's
/// date from the clock; then `ClockError` when the clock gives no date.
pub fn parse_date(input: &str) -> (r: Result<Date, ToroError>)
    ensures
        !relative_form(input@) ==> forall|t: int| date_result_matches(r, #[trigger] date_outcome(input@, t), input@),
        relative_form(input@) ==> r == Err::<Date, ToroError>(ToroError::ClockError) || exists|t: int|
            in_range(t) && date_result_matches(r, date_outcome(input@, t), input@),
{
    let s = chars_of(input);
    if is_relative_form(s.as_slice()) {
        match today() {
            Some(t) => parse_date_on(input, t),
            None => Err(ToroError::ClockError),
        }
    } else {
        let d0 = chrono_default();
        let r = parse_date_on(input, d0);
        proof {
            assert forall|t: int| date_result_matches(r, #[trigger] date_outcome(input@, t), input@) by {
                lemma_absolute_any_day(input@, t, d0@);
            }
        }
        r
    }
}

// ---------------------------------------------------------------------------
// Writing dates
// ---------------------------------------------------------------------------

/// `format!("{:0>4}-{:0>2}-{:0>2}", year, month, day)`.
pub open spec fn ymd_text(y: int, m: int, d: int) -> Seq<char> {
    pad_left(int_str(y), 4, '0') + seq!['-'] + pad_left(int_str(m), 2, '0') + seq!['-']
        + pad_left(int_str(d), 2, '0')
}

pub open spec fn abs(x: int) -> int {
    if x < 0 { -x } else { x }
}

/// How the date with day number `n` is written when today has day number `t`:
/// plainly `year-month-day`, or, when `nice`, relative to today if it is near.
pub open spec fn date_text(n: int, nice: bool, t: int) -> Seq<char> {
    let diff = n - t;
    if nice && diff == 0 {
        "today"@
    } else if nice && diff == -1 {
        "yesterday"@
    } else if nice && diff == 1 {
        "tomorrow"@
    } else if nice && abs(diff) < 14 {
        int_str(diff) + seq!['d']
    } else if nice && abs(div_trunc(diff, 7)) < 6 {
        int_str(div_trunc(diff, 7)) + seq!['w']
    } else {
        ymd_text(spec_ymd(n).0, spec_ymd(n).1, spec_ymd(n).2)
    }
}

/// The characters of `year-month-day` for `date`.
pub fn ymd_chars(date: Date) -> (r: Vec<char>)
    ensures
        r@ == ymd_text(spec_ymd(date@).0, spec_ymd(date@).1, spec_ymd(date@).2),
        valid_ymd(spec_ymd(date@).0, spec_ymd(date@).1, spec_ymd(date@).2),
{
    proof {
        use_type_invariant(&date);
    }
    let (y, m, d) = chrono_ymd(date);
    let yc = i64_chars(y as i64);
    let mc = i64_chars(m as i64);
    let dc = i64_chars(d as i64);
    let mut out = pad_left_chars(yc.as_slice(), 4, '0');
    out.push('-');
    let mp = pad_left_chars(mc.as_slice(), 2, '0');
    append_chars(&mut out, mp.as_slice());
    out.push('-');
    let dp = pad_left_chars(dc.as_slice(), 2, '0');
    append_chars(&mut out, dp.as_slice());
    out
}

/// Writes `date`, plainly or (when `nice`) relative to `today`.
pub fn format_date_on(date: Date, nice: bool, today: Date) -> (r: String)
    ensures
        r@ == date_text(date@, nice, today@),
        !nice && spec_ymd(date@).0 >= 0 ==> forall|t: int| date_outcome(r@, t) == DateOutcome::Day(date@),
{
    proof {
        use_type_invariant(&date);
        use_type_invariant(&today);
    }
    let diff = chrono_num_days(date, today);
    let is_yesterday = match chrono_sub_days(today, 1) {
        Some(y) => y.same_day(&date),
        None => false,
    };
    let is_tomorrow = match chrono_add_days(today, 1) {
        Some(y) => y.same_day(&date),
        None => false,
    };
    if nice && date.same_day(&today) {
        string_from_str("today")
    } else if nice && is_yesterday {
        string_from_str("yesterday")
    } else if nice && is_tomorrow {
        string_from_str("tomorrow")
    } else if nice && (diff < 14 && diff > -14) {
        let mut v = i64_chars(diff);
        v.push('d');
        string_from_chars(v.as_slice())
    } else {
        let weeks = chrono_num_weeks(date, today);
        if nice && (weeks < 6 && weeks > -6) {
            let mut v = i64_chars(weeks);
            v.push('w');
            string_from_chars(v.as_slice())
        } else {
            let v = ymd_chars(date);
            proof {
                use_type_invariant(&date);
                let (y, m, d) = spec_ymd(date@);
                if y >= 0 {
                    lemma_day_number_of(date);
                    assert forall|t: int| date_outcome(v@, t) == DateOutcome::Day(date@) by {
                        lemma_plain_date_reads_back(y, m, d, t);
                    }
                }
            }
            string_from_chars(v.as_slice())
        }
    }
}

/// Writes `date`, plainly or (when `nice`) relative to today's date from the clock.
pub fn format_date(date: Date, nice: bool) -> (r: Result<String, ToroError>)
    ensures
        !nice ==> (r matches Ok(s) && s@ == ymd_text(spec_ymd(date@).0, spec_ymd(date@).1, spec_ymd(date@).2)),
        nice ==> r == Err::<String, ToroError>(ToroError::ClockError) || (r matches Ok(s) && exists|t: int|
            in_range(t) && s@ == date_text(date@, nice, t)),
{
    if !nice {
        let v = ymd_chars(date);
        return Ok(string_from_chars(v.as_slice()));
    }
    match today() {
        Some(t) => Ok(format_date_on(date, nice, t)),
        None => Err(ToroError::ClockError),
    }
}

// ---------------------------------------------------------------------------
// Laws
// ---------------------------------------------------------------------------

proof fn lemma_digits_not_dash(a: Seq<char>)
    requires
        all_digits(a),
    ensures
        forall|j: int| 0 <= j < a.len() ==> a[j] != '-',
{
    assert forall|j: int| 0 <= j < a.len() implies a[j] != '-' by {
        assert(is_digit(a[j]));
    }
}

/// A date written plainly (`format_date` without `nice`) in a year from 0 on
/// reads back as the same year, month and day, whatever day today is.
pub proof fn lemma_plain_date_reads_back(y: int, m: int, d: int, t: int)
    requires
        valid_ymd(y, m, d),
        y >= 0,
    ensures
        date_outcome(ymd_text(y, m, d), t) == DateOutcome::Day(day_number(y, m, d)),
{
    let ys = pad_left(int_str(y), 4, '0');
    let ms = pad_left(int_str(m), 2, '0');
    let ds = pad_left(int_str(d), 2, '0');
    lemma_pad_left_digits(y as nat, 4);
    lemma_pad_left_digits(m as nat, 2);
    lemma_pad_left_digits(d as nat, 2);
    let s = ymd_text(y, m, d);
    assert(s =~= ys + seq!['-'] + ms + seq!['-'] + ds);
    let i = ys.len() as int;
    let j = i + 1 + ms.len();
    lemma_digits_not_dash(ys);
    lemma_digits_not_dash(ms);
    lemma_digits_not_dash(ds);
    assert(s[i] == '-');
    assert(s[j] == '-');
    assert forall|k: int| 0 <= k < i implies s[k] != '-' by {
        assert(s[k] == ys[k]);
    }
    assert forall|k: int| i + 1 <= k < j implies s[k] != '-' by {
        assert(s[k] == ms[k - i - 1]);
    }
    lemma_first_index_is(s, '-', 0, i);
    lemma_first_index_is(s, '-', i + 1, j);
    assert(s.take(i) =~= ys);
    assert(s.subrange(i + 1, j) =~= ms);
    assert(s.skip(j + 1) =~= ds);
    let parts = splitn3_dash(s);
    assert(parts.len() == 3);
    assert(parts[0] == ys);
    assert(parts[1] == ms);
    assert(parts[2] == ds);
    assert(is_digit(ys[0]));
    assert(is_digit(ms[0]));
    assert(is_digit(ds[0]));
    assert(parse_signed(ys, i32::MIN as int, i32::MAX as int) == Some(y));
    assert(parse_unsigned(ms, u32::MAX as int) == Some(m as nat));
    assert(parse_unsigned(ds, u32::MAX as int) == Some(d as nat));
    assert(ymd_fields(s) == Some((y, m, d)));
    assert(ymd_outcome(s) == DateOutcome::Day(day_number(y, m, d)));
    reveal_strlit("today");
    reveal_strlit("tomorrow");
    reveal_strlit("yesterday");
    assert(is_digit(s[0]));
    assert(s != "today"@);
    assert(s != "tomorrow"@);
    assert(s != "yesterday"@);
    assert(s.last() == ds.last());
    assert(is_digit(ds.last()));
}

/// Writing a date plainly and reading the text back gives the same date, for
/// dates from year 0 on, whatever day today is.
pub proof fn lemma_plain_date_roundtrip(d: Date, t: int)
    requires
        d.wf(),
        spec_ymd(d@).0 >= 0,
    ensures
        date_outcome(ymd_text(spec_ymd(d@).0, spec_ymd(d@).1, spec_ymd(d@).2), t) == DateOutcome::Day(d@),
{
    let (y, m, dd) = spec_ymd(d@);
    lemma_plain_date_reads_back(y, m, dd, t);
    lemma_day_number_of(d);
}


pub proof fn lemma_day_number_int(n: int)
    requires
        chrono_date(n),
    ensures
        day_number(spec_ymd(n).0, spec_ymd(n).1, spec_ymd(n).2) == n,
{
    let (y, m, d) = spec_ymd(n);
    assert(in_range(n) && spec_ymd(n) == (y, m, d));
}

/// The plain text of a date chrono holds, from year 0 on, reads back as that date.
pub proof fn lemma_plain_reads_back(n: int, t: int)
    requires
        chrono_date(n),
        spec_ymd(n).0 >= 0,
    ensures
        date_outcome(ymd_text(spec_ymd(n).0, spec_ymd(n).1, spec_ymd(n).2), t) == DateOutcome::Day(n),
{
    let (y, m, d) = spec_ymd(n);
    lemma_plain_date_reads_back(y, m, d, t);
    lemma_day_number_int(n);
}

/// Every character of `year-month-day` is a digit or a dash, and the text ends in a digit.
pub proof fn lemma_ymd_text_chars(y: int, m: int, d: int)
    requires
        valid_ymd(y, m, d),
    ensures
        forall|i: int| 0 <= i < ymd_text(y, m, d).len() ==> is_digit(#[trigger] ymd_text(y, m, d)[i]) || ymd_text(y, m, d)[i] == '-',
        ymd_text(y, m, d).len() > 0,
        is_digit(ymd_text(y, m, d).last()),
        is_digit(ymd_text(y, m, d)[0]) || ymd_text(y, m, d)[0] == '-',
{
    let ys = pad_left(int_str(y), 4, '0');
    let ms = pad_left(int_str(m), 2, '0');
    let ds = pad_left(int_str(d), 2, '0');
    lemma_pad_left_digits(m as nat, 2);
    lemma_pad_left_digits(d as nat, 2);
    let s = ymd_text(y, m, d);
    assert(s =~= ys + seq!['-'] + ms + seq!['-'] + ds);
    assert forall|i: int| 0 <= i < ys.len() implies is_digit(#[trigger] ys[i]) || ys[i] == '-' by {
        if y >= 0 {
            lemma_pad_left_digits(y as nat, 4);
        } else {
            lemma_nat_digits_are_digits((-y) as nat);
            let is = int_str(y);
            assert(is =~= seq!['-'] + nat_digits((-y) as nat));
            if is.len() < 4 {
                let k = 4 - is.len();
                if i >= k {
                    assert(ys[i] == is[i - k]);
                    if i - k > 0 {
                        assert(is[i - k] == nat_digits((-y) as nat)[i - k - 1]);
                    }
                }
            } else {
                if i > 0 {
                    assert(ys[i] == nat_digits((-y) as nat)[i - 1]);
                }
            }
        }
    }
    assert forall|i: int| 0 <= i < s.len() implies is_digit(#[trigger] s[i]) || s[i] == '-' by {
        if i < ys.len() {
            assert(s[i] == ys[i]);
        } else if i == ys.len() {
        } else if i < ys.len() + 1 + ms.len() {
            assert(s[i] == ms[i - ys.len() - 1]);
        } else if i == ys.len() + 1 + ms.len() {
        } else {
            assert(s[i] == ds[i - ys.len() - 2 - ms.len()]);
        }
    }
    assert(s.last() == ds.last());
    assert(ys.len() > 0) by {
        if y >= 0 {
            lemma_pad_left_digits(y as nat, 4);
        } else {
            assert(int_str(y).len() > 0);
        }
    }
    assert(s[0] == ys[0]);
}

/// `year-month-day` of a year from 0 to 9999 has the shape `dddd-dd-dd`.
pub proof fn lemma_ymd_text_shape(y: int, m: int, d: int)
    requires
        valid_ymd(y, m, d),
        0 <= y <= 9999,
    ensures
        ymd_text(y, m, d).len() == 10,
        all_digits(ymd_text(y, m, d).subrange(0, 4)),
        ymd_text(y, m, d)[4] == '-',
        all_digits(ymd_text(y, m, d).subrange(5, 7)),
        ymd_text(y, m, d)[7] == '-',
        all_digits(ymd_text(y, m, d).subrange(8, 10)),
{
    let ys = pad_left(int_str(y), 4, '0');
    let ms = pad_left(int_str(m), 2, '0');
    let ds = pad_left(int_str(d), 2, '0');
    lemma_pad_left_digits(y as nat, 4);
    lemma_pad_left_digits(m as nat, 2);
    lemma_pad_left_digits(d as nat, 2);
    assert(pow10(4) == 10000) by {
        assert(pow10(0) == 1);
        assert(pow10(1) == 10);
        assert(pow10(2) == 100);
        assert(pow10(3) == 1000);
    }
    assert(pow10(2) == 100) by {
        assert(pow10(0) == 1);
        assert(pow10(1) == 10);
    }
    lemma_pad_left_len(y as nat, 4);
    lemma_pad_left_len(m as nat, 2);
    lemma_pad_left_len(d as nat, 2);
    let s = ymd_text(y, m, d);
    assert(s =~= ys + seq!['-'] + ms + seq!['-'] + ds);
    assert(s.subrange(0, 4) =~= ys);
    assert(s.subrange(5, 7) =~= ms);
    assert(s.subrange(8, 10) =~= ds);
}

/// The plain text of a date before year 0 does not read as a date.
pub proof fn lemma_negative_year_unreadable(y: int, m: int, d: int, t: int)
    requires
        valid_ymd(y, m, d),
        y < 0,
    ensures
        date_outcome(ymd_text(y, m, d), t) == DateOutcome::BadInput,
{
    let is = int_str(y);
    let nd = nat_digits((-y) as nat);
    lemma_nat_digits_are_digits((-y) as nat);
    assert(is =~= seq!['-'] + nd);
    let ys = pad_left(is, 4, '0');
    let ms = pad_left(int_str(m), 2, '0');
    let ds = pad_left(int_str(d), 2, '0');
    lemma_pad_left_digits(m as nat, 2);
    lemma_pad_left_digits(d as nat, 2);
    let s = ymd_text(y, m, d);
    assert(s =~= ys + seq!['-'] + ms + seq!['-'] + ds);
    lemma_ymd_text_chars(y, m, d);
    reveal_strlit("today");
    reveal_strlit("tomorrow");
    reveal_strlit("yesterday");
    assert(s.last() == ds.last());
    assert(is_digit(ds.last()));
    assert(s[0] == ys[0]);
    if is.len() >= 4 {
        assert(ys == is);
        assert(s[0] == '-');
        assert(s != "today"@ && s != "tomorrow"@ && s != "yesterday"@);
        lemma_first_index_is(s, '-', 0, 0);
        let parts = splitn3_dash(s);
        assert(parts[0] =~= Seq::<char>::empty());
        assert(ymd_fields(s) is None);
    } else {
        let k = 4 - is.len();
        assert(ys =~= Seq::new(k as nat, |i: int| '0') + is);
        assert(s[0] == '0');
        assert(s != "today"@ && s != "tomorrow"@ && s != "yesterday"@);
        // the first dash closes the zeros, the second the year's digits
        assert forall|j: int| 0 <= j < k implies s[j] != '-' by {
            assert(s[j] == ys[j]);
        }
        assert(s[k] == '-');
        lemma_first_index_is(s, '-', 0, k);
        let j2 = k + 1 + nd.len();
        assert forall|j: int| k + 1 <= j < j2 implies s[j] != '-' by {
            assert(s[j] == ys[j]);
            assert(ys[j] == is[j - k]);
            assert(is[j - k] == nd[j - k - 1]);
            assert(is_digit(nd[j - k - 1]));
        }
        assert(ys.len() == 4);
        assert(j2 == 4);
        assert(s[j2] == '-');
        lemma_first_index_is(s, '-', k + 1, j2);
        let parts = splitn3_dash(s);
        let p2 = s.skip(j2 + 1);
        assert(p2 =~= ms + seq!['-'] + ds);
        assert(parts[2] == p2);
        assert(is_digit(ms[0]));
        assert(p2[0] == ms[0]);
        assert(p2[ms.len() as int] == '-');
        assert(!all_digits(p2));
        assert(parse_unsigned(p2, u32::MAX as int) is None);
        assert(ymd_fields(s) is None);
    }
}

/// A date token `dddd-dd-dd` is read as `year-month-day`, with a year from 0 to 9999.
pub proof fn lemma_date_token_fields(s: Seq<char>)
    requires
        s.len() == 10,
        all_digits(s.subrange(0, 4)),
        s[4] == '-',
        all_digits(s.subrange(5, 7)),
        s[7] == '-',
        all_digits(s.subrange(8, 10)),
    ensures
        !relative_form(s),
        ymd_fields(s) matches Some(f) && 0 <= f.0 <= 9999,
{
    let a = s.subrange(0, 4);
    let b = s.subrange(5, 7);
    let c = s.subrange(8, 10);
    assert(is_digit(a[0]));
    assert(s[0] == a[0]);
    assert(is_digit(c[1]));
    assert(s.last() == c[1]);
    reveal_strlit("today");
    reveal_strlit("tomorrow");
    reveal_strlit("yesterday");
    assert(s != "today"@ && s != "tomorrow"@ && s != "yesterday"@);
    assert forall|j: int| 0 <= j < 4 implies s[j] != '-' by {
        assert(s[j] == a[j]);
        assert(is_digit(a[j]));
    }
    lemma_first_index_is(s, '-', 0, 4);
    assert forall|j: int| 5 <= j < 7 implies s[j] != '-' by {
        assert(s[j] == b[j - 5]);
        assert(is_digit(b[j - 5]));
    }
    lemma_first_index_is(s, '-', 5, 7);
    let parts = splitn3_dash(s);
    assert(parts[0] =~= a);
    assert(parts[1] =~= b);
    assert(parts[2] =~= c);
    lemma_digits_value_lt(a);
    lemma_digits_value_lt(b);
    lemma_digits_value_lt(c);
    assert(pow10(4) == 10000 && pow10(2) == 100) by {
        assert(pow10(0) == 1);
        assert(pow10(1) == 10);
        assert(pow10(2) == 100);
        assert(pow10(3) == 1000);
    }
    assert(is_digit(b[0]));
    assert(parse_signed(a, i32::MIN as int, i32::MAX as int) == Some(digits_value(a) as int));
    assert(parse_unsigned(b, u32::MAX as int) == Some(digits_value(b)));
    assert(parse_unsigned(c, u32::MAX as int) == Some(digits_value(c)));
}

/// `n` in decimal reads back as `n` (up to `max`).
proof fn lemma_digits_read(n: nat, max: int)
    requires
        n <= max,
    ensures
        parse_unsigned(nat_digits(n), max) == Some(n),
{
    lemma_nat_digits_are_digits(n);
    let s = nat_digits(n);
    assert(is_digit(s[0]));
}

/// The relative forms of a date agree on any one day: `today` is `0d`,
/// `tomorrow` is `1d`, `yesterday` is the day before, and `<n>w` is `<7n>d`.
pub proof fn lemma_relative_forms_agree(t: int, n: nat)
    requires
        in_range(t),
        n * 7 <= u64::MAX,
    ensures
        date_outcome("today"@, t) == date_outcome(nat_digits(0) + seq!['d'], t),
        date_outcome("tomorrow"@, t) == date_outcome(nat_digits(1) + seq!['d'], t),
        date_outcome("yesterday"@, t) == shifted(t - 1),
        date_outcome(nat_digits(n) + seq!['w'], t) == date_outcome(nat_digits(n * 7) + seq!['d'], t),
        date_outcome(nat_digits(n) + seq!['d'], t) == shifted(t + n),
{
    reveal_strlit("today");
    reveal_strlit("tomorrow");
    reveal_strlit("yesterday");
    lemma_digits_read(0, u64::MAX as int);
    lemma_digits_read(1, u64::MAX as int);
    lemma_digits_read(n, u64::MAX as int);
    lemma_digits_read(n * 7, u64::MAX as int);
    let z = nat_digits(0) + seq!['d'];
    let o = nat_digits(1) + seq!['d'];
    let w = nat_digits(n) + seq!['w'];
    let d = nat_digits(n) + seq!['d'];
    let d7 = nat_digits(n * 7) + seq!['d'];
    assert(z.drop_last() =~= nat_digits(0));
    assert(o.drop_last() =~= nat_digits(1));
    assert(w.drop_last() =~= nat_digits(n));
    assert(d.drop_last() =~= nat_digits(n));
    assert(d7.drop_last() =~= nat_digits(n * 7));
    assert(z != "today"@ && z != "tomorrow"@ && z != "yesterday"@) by {
        assert(z.last() != "today"@.last());
        assert(z.last() != "tomorrow"@.last());
        assert(z.last() != "yesterday"@.last());
    }
    assert(o != "today"@ && o != "tomorrow"@ && o != "yesterday"@) by {
        assert(o.last() != "today"@.last());
        assert(o.last() != "tomorrow"@.last());
        assert(o.last() != "yesterday"@.last());
    }
    assert(d != "today"@ && d != "tomorrow"@ && d != "yesterday"@) by {
        assert(d.last() != "today"@.last());
        assert(d.last() != "tomorrow"@.last());
        assert(d.last() != "yesterday"@.last());
    }
    assert(d7 != "today"@ && d7 != "tomorrow"@ && d7 != "yesterday"@) by {
        assert(d7.last() != "today"@.last());
        assert(d7.last() != "tomorrow"@.last());
        assert(d7.last() != "yesterday"@.last());
    }
    assert(w != "today"@ && w != "yesterday"@) by {
        assert(w.last() != "today"@.last());
        assert(w.last() != "yesterday"@.last());
    }
    if w == "tomorrow"@ {
        assert(w.drop_last() == "tomorro"@);
        assert(!is_digit(w.drop_last()[0]));
        lemma_nat_digits_are_digits(n);
        assert(is_digit(nat_digits(n)[0]));
    }
}

/// A date written relative to today (`nice`) reads back as itself on that
/// day when it is today or one of the next thirteen days.
pub proof fn lemma_nice_date_reads_back(n: int, t: int)
    requires
        in_range(n),
        t <= n < t + 14,
    ensures
        date_outcome(date_text(n, true, t), t) == DateOutcome::Day(n),
{
    reveal_strlit("today");
    reveal_strlit("tomorrow");
    reveal_strlit("yesterday");
    let diff = n - t;
    if diff >= 2 {
        let s = int_str(diff) + seq!['d'];
        assert(date_text(n, true, t) == s);
        lemma_digits_read(diff as nat, u64::MAX as int);
        assert(s.drop_last() =~= nat_digits(diff as nat));
        assert(s != "today"@ && s != "tomorrow"@ && s != "yesterday"@) by {
            assert(s.last() != "today"@.last());
            assert(s.last() != "tomorrow"@.last());
            assert(s.last() != "yesterday"@.last());
        }
    }
}

} // verus!
