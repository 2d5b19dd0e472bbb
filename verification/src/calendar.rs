//! Calendar dates, the eight-digit text that names one, and the span of
//! instants that a day covers.

use crate::error::BujoError;
use vstd::prelude::*;

verus! {

/// A date of the Gregorian calendar.
#[derive(Debug, Clone, Copy, PartialEq, Eq, Structural)]
pub struct Date {
    pub year: i32,
    pub month: u32,
    pub day: u32,
}

/// Whether `year` has a 29th of February.
pub open spec fn is_leap_year(year: int) -> bool {
    year % 4 == 0 && (year % 100 != 0 || year % 400 == 0)
}

/// The number of days of month `month` (1 to 12) in `year`.
pub open spec fn days_in_month(year: int, month: int) -> int {
    if month == 2 {
        if is_leap_year(year) {
            29
        } else {
            28
        }
    } else if month == 4 || month == 6 || month == 9 || month == 11 {
        30
    } else {
        31
    }
}

/// Whether `c` is one of the ten decimal digits.
pub open spec fn is_digit(c: char) -> bool {
    '0' <= c <= '9'
}

/// The number that the digit `c` stands for.
pub open spec fn digit_value(c: char) -> int {
    c as int - '0' as int
}

/// The date that a text of eight digits names: four digits of year, two of
/// month, two of day.
pub open spec fn date_of_text(text: Seq<char>) -> Date {
    Date {
        year: (digit_value(text[0]) * 1000 + digit_value(text[1]) * 100 + digit_value(text[2]) * 10
            + digit_value(text[3])) as i32,
        month: (digit_value(text[4]) * 10 + digit_value(text[5])) as u32,
        day: (digit_value(text[6]) * 10 + digit_value(text[7])) as u32,
    }
}

/// Whether `text` names a date: exactly eight characters, all of them
/// digits, that give a month and a day which exist.
pub open spec fn is_date_text(text: Seq<char>) -> bool {
    &&& text.len() == 8
    &&& forall|i: int| 0 <= i < 8 ==> is_digit(#[trigger] text[i])
    &&& date_of_text(text).valid()
}

impl Date {
    /// Whether the date exists: a year of at most four digits, a month from
    /// 1 to 12 and a day that the month has.
    pub open spec fn valid(self) -> bool {
        &&& 0 <= self.year <= 9999
        &&& 1 <= self.month <= 12
        &&& 1 <= self.day <= days_in_month(self.year as int, self.month as int)
    }

    /// The day after this one.
    pub open spec fn following(self) -> Date {
        if self.day < days_in_month(self.year as int, self.month as int) {
            Date { day: (self.day + 1) as u32, ..self }
        } else if self.month < 12 {
            Date { month: (self.month + 1) as u32, day: 1, ..self }
        } else {
            Date { year: (self.year + 1) as i32, month: 1, day: 1 }
        }
    }

    /// Returns the number of days of this date's month.
    pub fn month_length(&self) -> (n: u32)
        requires
            0 <= self.year <= 9999,
        ensures
            n == days_in_month(self.year as int, self.month as int),
    {
        if self.month == 2 {
            if self.year % 4 == 0 && (self.year % 100 != 0 || self.year % 400 == 0) {
                29
            } else {
                28
            }
        } else if self.month == 4 || self.month == 6 || self.month == 9 || self.month == 11 {
            30
        } else {
            31
        }
    }

    /// Tells whether the date exists.
    pub fn is_valid(&self) -> (b: bool)
        ensures
            b == self.valid(),
    {
        if self.year < 0 || self.year > 9999 {
            return false;
        }
        1 <= self.month && self.month <= 12 && 1 <= self.day && self.day <= self.month_length()
    }

    /// Returns the day after this one, or `None` after the last day of the
    /// year 9999.
    pub fn next(&self) -> (r: Option<Date>)
        requires
            self.valid(),
        ensures
            r is Some <==> !(self.year == 9999 && self.month == 12 && self.day == 31),
            r matches Some(d) ==> d == self.following() && d.valid(),
    {
        if self.day < self.month_length() {
            Some(Date { year: self.year, month: self.month, day: self.day + 1 })
        } else if self.month < 12 {
            Some(Date { year: self.year, month: self.month + 1, day: 1 })
        } else if self.year < 9999 {
            Some(Date { year: self.year + 1, month: 1, day: 1 })
        } else {
            None
        }
    }
}

/// Reads one digit, or `None` where `c` is no digit.
fn read_digit(c: char) -> (r: Option<u32>)
    ensures
        r is Some <==> is_digit(c),
        r matches Some(d) ==> d == digit_value(c),
{
    if '0' <= c && c <= '9' {
        Some(c as u32 - '0' as u32)
    } else {
        None
    }
}

/// Reads a date written as eight digits, such as `20991231`.
///
/// Every text of another length, with another character or with a month or
/// a day that does not exist is refused with `DateFormatInvalid`.
pub fn parse_date(text: &String) -> (r: Result<Date, BujoError>)
    ensures
        is_date_text(text@) ==> r == Ok::<Date, BujoError>(date_of_text(text@)),
        !is_date_text(text@) ==> r == Err::<Date, BujoError>(BujoError::DateFormatInvalid),
{
    let s = text.as_str();
    if s.unicode_len() != 8 {
        return Err(BujoError::DateFormatInvalid);
    }
    let mut digits: Vec<u32> = Vec::new();
    let mut i: usize = 0;
    while i < 8
        invariant
            i <= 8,
            s@ == text@,
            s@.len() == 8,
            digits@.len() == i,
            forall|j: int| 0 <= j < i ==> is_digit(#[trigger] s@[j]) && digits@[j] == digit_value(s@[j]),
        decreases 8 - i,
    {
        match read_digit(s.get_char(i)) {
            Some(d) => digits.push(d),
            None => {
                return Err(BujoError::DateFormatInvalid);
            },
        }
        i += 1;
    }
    assert(forall|j: int| 0 <= j < 8 ==> 0 <= digit_value(#[trigger] s@[j]) <= 9);
    assert(is_digit(s@[0]) && is_digit(s@[1]) && is_digit(s@[2]) && is_digit(s@[3]));
    assert(is_digit(s@[4]) && is_digit(s@[5]) && is_digit(s@[6]) && is_digit(s@[7]));
    let year: u32 = digits[0] * 1000 + digits[1] * 100 + digits[2] * 10 + digits[3];
    let date = Date {
        year: year as i32,
        month: digits[4] * 10 + digits[5],
        day: digits[6] * 10 + digits[7],
    };
    if date.is_valid() {
        Ok(date)
    } else {
        Err(BujoError::DateFormatInvalid)
    }
}

/// A calendar day, given as the instants that it covers: every second from
/// `first` to `last`, both included, counted from the start of 1970 in UTC.
#[derive(Debug, Clone, Copy, PartialEq, Eq, Structural)]
pub struct Day {
    pub first: i64,
    pub last: i64,
}

impl Day {
    /// Whether the instant `t` falls on this day.
    pub open spec fn covers(self, t: int) -> bool {
        self.first <= t <= self.last
    }

    /// Tells whether the instant `t` falls on this day.
    pub fn contains(&self, t: i64) -> (b: bool)
        ensures
            b == self.covers(t as int),
    {
        self.first <= t && t <= self.last
    }
}

} // verus!
