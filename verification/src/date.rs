//! Calendar dates.

use crate::decimal::{
    lemma_digit_char, lemma_two_digits, push_decimal, push_two_digits, two_digits,
};
use crate::text::{
    all_digits, decimal, digit_of, digit_value, digits_value, is_digit, is_digit_char,
};
use chrono::Datelike;
use core::cmp::Ordering;
use vstd::prelude::*;

verus! {

/// The first year that a date can lie in.
pub const MIN_YEAR: i32 = -262143;

/// The last year that a date can lie in.
pub const MAX_YEAR: i32 = 262142;

/// Whether February has 29 days in the year: in every fourth year, but
/// of the years that end a century only in every fourth.
pub open spec fn is_leap_year(year: int) -> bool {
    year % 4 == 0 && (year % 100 != 0 || year % 400 == 0)
}

/// The number of days of a month of a year.
pub open spec fn days_in_month(year: int, month: int) -> int {
    if month == 2 {
        if is_leap_year(year) {
            29
        } else {
            28
        }
    } else if month == 4 || month == 6 || month == 9 || month == 11 {
        30
    } else {
        31
    }
}

/// Whether the proleptic Gregorian calendar has the day `year-month-day`,
/// in a year that a date can lie in.
pub open spec fn date_exists(year: int, month: int, day: int) -> bool {
    &&& MIN_YEAR <= year <= MAX_YEAR
    &&& 1 <= month <= 12
    &&& 1 <= day <= days_in_month(year, month)
}

/// What `chrono::NaiveDate::parse_from_str` makes of a text under a format
/// string: year, month and day of the date that it reads, or `None` where
/// it reports an error.
pub uninterp spec fn chrono_parse_date(text: Seq<char>, format: Seq<char>) -> Option<
    (int, int, int),
>;

/// Year, month and day as numbers without bounds.
pub open spec fn ymd_ints(r: Option<(i32, u32, u32)>) -> Option<(int, int, int)> {
    match r {
        Some((y, m, d)) => Some((y as int, m as int, d as int)),
        None => None,
    }
}

/// Calls `chrono::NaiveDate::from_ymd_opt`, which returns a date exactly
/// when the calendar has the day and the year is one that a date can lie
/// in; says whether it returned one.
#[verifier::external_body]
fn calendar_has_day(year: i32, month: u32, day: u32) -> (b: bool)
    ensures
        b == date_exists(year as int, month as int, day as int),
{
    chrono::NaiveDate::from_ymd_opt(year, month, day).is_some()
}

/// The form in which a bank's statement gives a date: month, day and
/// year with `/` between them, as a format string of `chrono`.
pub open spec fn statement_date_format() -> Seq<char> {
    "%m/%d/%Y"@
}

/// Calls `chrono::NaiveDate::parse_from_str` and hands back year, month and
/// day of the date that it read. Nothing is claimed of the outcome but
/// that it depends on the text and the format string alone, and that
/// under the one format string that the library uses, decimal numbers
/// with `/` between them, it returns whatever the text.
#[verifier::external_body]
fn read_date_as(text: &str, format: &str) -> (r: Option<(i32, u32, u32)>)
    requires
        format@ == statement_date_format(),
    ensures
        ymd_ints(r) == chrono_parse_date(text@, format@),
{
    match chrono::NaiveDate::parse_from_str(text, format) {
        Ok(d) => Some((d.year(), d.month(), d.day())),
        Err(_) => None,
    }
}

/// A day of the calendar. Dates are ordered as the calendar orders them.
#[derive(Clone, Copy, Debug, PartialEq, Eq, Structural, Ord, Hash)]
pub struct Date {
    year: i32,
    month: u32,
    day: u32,
}

/// The order of the calendar on year, month and day.
pub open spec fn ymd_before(a: (int, int, int), b: (int, int, int)) -> bool {
    a.0 < b.0 || (a.0 == b.0 && (a.1 < b.1 || (a.1 == b.1 && a.2 < b.2)))
}

/// The four digits of a number below ten thousand.
pub open spec fn four_digits(n: int) -> Seq<char> {
    two_digits(n / 100) + two_digits(n % 100)
}

/// A year as a date shows it: four digits for the years 0 to 9999, a sign
/// and at least four digits for every other year.
pub open spec fn year_text(year: int) -> Seq<char> {
    if 0 <= year <= 9999 {
        four_digits(year)
    } else if -9999 <= year < 0 {
        seq!['-'] + four_digits(-year)
    } else if year < 0 {
        seq!['-'] + decimal(-year)
    } else {
        seq!['+'] + decimal(year)
    }
}

/// A date as it is shown: year, month and day with `-` between them.
pub open spec fn iso_text(ymd: (int, int, int)) -> Seq<char> {
    year_text(ymd.0) + seq!['-'] + two_digits(ymd.1) + seq!['-'] + two_digits(ymd.2)
}

/// Four digits, `-`, two digits, `-`, two digits.
pub open spec fn iso_shape(s: Seq<char>) -> bool {
    &&& s.len() == 10
    &&& all_digits(s.subrange(0, 4))
    &&& s[4] == '-'
    &&& all_digits(s.subrange(5, 7))
    &&& s[7] == '-'
    &&& all_digits(s.subrange(8, 10))
}

/// The date that a text of ten characters shows, where it has the shape of
/// a date and the calendar has the day.
pub open spec fn iso_date(s: Seq<char>) -> Option<(int, int, int)> {
    let y = digits_value(s.subrange(0, 4));
    let m = digits_value(s.subrange(5, 7));
    let d = digits_value(s.subrange(8, 10));
    if iso_shape(s) && date_exists(y, m, d) {
        Some((y, m, d))
    } else {
        None
    }
}

impl View for Date {
    type V = (int, int, int);

    closed spec fn view(&self) -> (int, int, int) {
        (self.year as int, self.month as int, self.day as int)
    }
}

impl PartialOrd for Date {
    fn partial_cmp(&self, other: &Date) -> (r: Option<Ordering>) {
        if self.before(other) {
            Some(Ordering::Less)
        } else if other.before(self) {
            Some(Ordering::Greater)
        } else {
            Some(Ordering::Equal)
        }
    }
}

impl vstd::std_specs::cmp::PartialOrdSpecImpl for Date {
    open spec fn obeys_partial_cmp_spec() -> bool {
        true
    }

    open spec fn partial_cmp_spec(&self, other: &Date) -> Option<Ordering> {
        if ymd_before(self@, other@) {
            Some(Ordering::Less)
        } else if ymd_before(other@, self@) {
            Some(Ordering::Greater)
        } else {
            Some(Ordering::Equal)
        }
    }
}

impl Date {
    #[verifier::type_invariant]
    spec fn day_exists(self) -> bool {
        date_exists(self.year as int, self.month as int, self.day as int)
    }

    /// The date of the given year, month and day, where the calendar has
    /// that day.
    pub fn from_ymd(year: i32, month: u32, day: u32) -> (r: Option<Date>)
        ensures
            date_exists(year as int, month as int, day as int) <==> r is Some,
            r matches Some(d) ==> d@ == (year as int, month as int, day as int),
    {
        if calendar_has_day(year, month, day) {
            Some(Date { year, month, day })
        } else {
            None
        }
    }

    /// The year; negative before the year 0 of the calendar.
    pub fn year(&self) -> (y: i32)
        ensures
            y == self@.0,
            MIN_YEAR <= y <= MAX_YEAR,
    {
        proof {
            use_type_invariant(self);
        }
        self.year
    }

    /// The month of the year, 1 to 12.
    pub fn month(&self) -> (m: u32)
        ensures
            m == self@.1,
            1 <= m <= 12,
    {
        proof {
            use_type_invariant(self);
        }
        self.month
    }

    /// The day of the month, from 1 on.
    pub fn day(&self) -> (d: u32)
        ensures
            d == self@.2,
            date_exists(self@.0, self@.1, self@.2),
    {
        proof {
            use_type_invariant(self);
        }
        self.day
    }

    /// Whether this date lies before the other.
    pub fn before(&self, other: &Date) -> (b: bool)
        ensures
            b == ymd_before(self@, other@),
    {
        self.year < other.year || (self.year == other.year && (self.month < other.month || (
        self.month == other.month && self.day < other.day)))
    }

    /// Whether both are the same day.
    pub fn same_day(&self, other: &Date) -> (b: bool)
        ensures
            b == (self@ == other@),
            b == (*self == *other),
    {
        self.year == other.year && self.month == other.month && self.day == other.day
    }

    /// The date as it is shown, such as `2024-03-15`.
    pub fn to_string(&self) -> (s: String)
        ensures
            s@ == iso_text(self@),
    {
        let mut s = String::new();
        self.push_to(&mut s);
        proof {
            assert(Seq::<char>::empty() + iso_text(self@) =~= iso_text(self@));
        }
        s
    }

    /// Appends the date as it is shown to `s`.
    pub fn push_to(&self, s: &mut String)
        ensures
            final(s)@ == old(s)@ + iso_text(self@),
    {
        proof {
            use_type_invariant(self);
        }
        let y: i32 = self.year;
        if 0 <= y && y <= 9999 {
            push_two_digits(s, (y / 100) as u8);
            push_two_digits(s, (y % 100) as u8);
        } else if -9999 <= y && y < 0 {
            s.push('-');
            push_two_digits(s, ((-y) / 100) as u8);
            push_two_digits(s, ((-y) % 100) as u8);
        } else if y < 0 {
            s.push('-');
            push_decimal(s, (-y) as u64);
        } else {
            s.push('+');
            push_decimal(s, y as u64);
        }
        let ghost with_year = s@;
        proof {
            assert(with_year =~= old(s)@ + year_text(y as int));
        }
        s.push('-');
        push_two_digits(s, self.month as u8);
        s.push('-');
        push_two_digits(s, self.day as u8);
        proof {
            assert(s@ =~= old(s)@ + iso_text(self@));
        }
    }

    /// Whether `v` holds ten characters from `from` on that have the shape
    /// of a date.
    pub fn has_iso_shape(v: &Vec<char>, from: usize) -> (ok: bool)
        ensures
            ok == (from + 10 <= v.len() && iso_shape(v@.subrange(from as int, from + 10))),
    {
        if v.len() < 10 || from > v.len() - 10 {
            return false;
        }
        let ghost s = v@.subrange(from as int, from + 10);
        proof {
            assert forall|k: int| 0 <= k < 10 implies s[k] == v@[from + k] by {}
            lemma_iso_shape(s);
        }
        is_digit_char(v[from]) && is_digit_char(v[from + 1]) && is_digit_char(v[from + 2])
            && is_digit_char(v[from + 3]) && v[from + 4] == '-' && is_digit_char(v[from + 5])
            && is_digit_char(v[from + 6]) && v[from + 7] == '-' && is_digit_char(v[from + 8])
            && is_digit_char(v[from + 9])
    }

    /// Reads the ten characters of `v` from `from` on as a date. There is
    /// none where `v` ends before, where the ten do not have the shape of
    /// a date, and where the calendar does not have the day.
    pub fn read_iso(v: &Vec<char>, from: usize) -> (r: Option<Date>)
        ensures
            match (if from + 10 <= v.len() {
                iso_date(v@.subrange(from as int, from + 10))
            } else {
                None
            }) {
                Some(ymd) => r matches Some(d) && d@ == ymd,
                None => r is None,
            },
    {
        if !Date::has_iso_shape(v, from) {
            return None;
        }
        let ghost s = v@.subrange(from as int, from + 10);
        proof {
            assert forall|k: int| 0 <= k < 10 implies s[k] == v@[from + k] by {}
            lemma_iso_shape(s);
            lemma_four_digits_value(s.subrange(0, 4));
            lemma_two_digits_value(s.subrange(5, 7));
            lemma_two_digits_value(s.subrange(8, 10));
        }
        let y: i32 = (digit_of(v[from]) as i32) * 1000 + (digit_of(v[from + 1]) as i32) * 100 + (
        digit_of(v[from + 2]) as i32) * 10 + digit_of(v[from + 3]) as i32;
        let m: u32 = (digit_of(v[from + 5]) as u32) * 10 + digit_of(v[from + 6]) as u32;
        let d: u32 = (digit_of(v[from + 8]) as u32) * 10 + digit_of(v[from + 9]) as u32;
        Date::from_ymd(y, m, d)
    }

    /// Reads a date in the form month/day/year, as `chrono` reads it under
    /// the format string `%m/%d/%Y`. There is a date where `chrono` reads
    /// one.
    pub fn read_statement_date(text: &str) -> (r: Option<Date>)
        ensures
            match chrono_parse_date(text@, statement_date_format()) {
                Some(ymd) => if date_exists(ymd.0, ymd.1, ymd.2) {
                    r matches Some(date) && date@ == ymd
                } else {
                    r is None
                },
                None => r is None,
            },
    {
        Date::from_parts(read_date_as(text, "%m/%d/%Y"))
    }

    /// The date of what was read, where something was read and the
    /// calendar has the day.
    pub fn from_parts(read: Option<(i32, u32, u32)>) -> (r: Option<Date>)
        ensures
            match read {
                Some((y, m, d)) => if date_exists(y as int, m as int, d as int) {
                    r matches Some(date) && date@ == (y as int, m as int, d as int)
                } else {
                    r is None
                },
                None => r is None,
            },
    {
        match read {
            Some((y, m, d)) => Date::from_ymd(y, m, d),
            None => None,
        }
    }
}

/// Dates with the same year, month and day are the same date.
pub proof fn law_date_by_view(a: Date, b: Date)
    ensures
        a@ == b@ <==> a == b,
{
}

proof fn lemma_iso_shape(s: Seq<char>)
    requires
        s.len() == 10,
    ensures
        iso_shape(s) <==> (is_digit(s[0]) && is_digit(s[1]) && is_digit(s[2]) && is_digit(s[3])
            && s[4] == '-' && is_digit(s[5]) && is_digit(s[6]) && s[7] == '-' && is_digit(s[8])
            && is_digit(s[9])),
{
    let a = s.subrange(0, 4);
    let b = s.subrange(5, 7);
    let c = s.subrange(8, 10);
    assert(a[0] == s[0] && a[1] == s[1] && a[2] == s[2] && a[3] == s[3]);
    assert(b[0] == s[5] && b[1] == s[6]);
    assert(c[0] == s[8] && c[1] == s[9]);
}

/// Two digits write ten times the first and the second.
pub proof fn lemma_two_digits_value(s: Seq<char>)
    requires
        s.len() == 2,
    ensures
        digits_value(s) == digit_value(s[0]) * 10 + digit_value(s[1]),
{
    reveal_with_fuel(digits_value, 3);
    assert(s.drop_last().drop_last().len() == 0);
    assert(s.drop_last().last() == s[0]);
}

/// Four digits write the number that their values make in base ten.
pub proof fn lemma_four_digits_value(s: Seq<char>)
    requires
        s.len() == 4,
    ensures
        digits_value(s) == digit_value(s[0]) * 1000 + digit_value(s[1]) * 100 + digit_value(s[2])
            * 10 + digit_value(s[3]),
{
    let a = s.drop_last();
    let b = a.drop_last();
    assert(b.len() == 2);
    lemma_two_digits_value(b);
    assert(b[0] == s[0] && b[1] == s[1]);
    assert(a.last() == s[2]);
    assert(digits_value(a) == digits_value(b) * 10 + digit_value(s[2]));
    assert(digits_value(s) == digits_value(a) * 10 + digit_value(s[3]));
}

/// A date of the years 0 to 9999 is read back from what it is shown as.
pub proof fn lemma_iso_reads_back(ymd: (int, int, int))
    requires
        date_exists(ymd.0, ymd.1, ymd.2),
        0 <= ymd.0 <= 9999,
    ensures
        iso_text(ymd).len() == 10,
        iso_shape(iso_text(ymd)),
        iso_date(iso_text(ymd)) == Some(ymd),
{
    let (y, m, d) = ymd;
    let s = iso_text(ymd);
    lemma_two_digits(y / 100);
    lemma_two_digits(y % 100);
    lemma_two_digits(m);
    lemma_two_digits(d);
    lemma_digit_char(y / 100 / 10);
    lemma_digit_char(y / 100 % 10);
    lemma_digit_char(y % 100 / 10);
    lemma_digit_char(y % 100 % 10);
    assert(s.len() == 10);
    assert(s.subrange(0, 4) =~= four_digits(y));
    assert(s.subrange(5, 7) =~= two_digits(m));
    assert(s.subrange(8, 10) =~= two_digits(d));
    assert(s[4] == '-');
    assert(s[7] == '-');
    let f = four_digits(y);
    lemma_four_digits_value(f);
    assert forall|k: int| 0 <= k < f.len() implies is_digit(#[trigger] f[k]) by {}
}

} // verus!
