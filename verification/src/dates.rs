use vstd::prelude::*;
use vstd::string::StringExecFns;

use crate::errors::RefineError;

verus! {

/// Which calendar day's series is meant: the current local date or the one
/// after it.
#[derive(Clone, Copy, Debug, PartialEq, Eq, Structural)]
pub enum Day {
    Today,
    Tomorrow,
}

/// A calendar date of the Gregorian calendar, kept inside the four-digit
/// year range.
#[derive(Clone, Copy, Debug, PartialEq, Eq, Structural)]
pub struct CivilDate {
    pub year: i32,
    pub month: u8,
    pub day: u8,
}

/// Whether `y` is a Gregorian leap year.
pub open spec fn leap_year(y: int) -> bool {
    (y % 4 == 0 && y % 100 != 0) || y % 400 == 0
}

/// How many days month `m` of year `y` has.
pub open spec fn days_in_month(y: int, m: int) -> int {
    if m == 2 {
        if leap_year(y) {
            29
        } else {
            28
        }
    } else if m == 4 || m == 6 || m == 9 || m == 11 {
        30
    } else {
        31
    }
}

/// Whether `d` is a real calendar date within the library's range.
pub open spec fn date_valid(d: CivilDate) -> bool {
    &&& 0 <= d.year <= 9999
    &&& 1 <= d.month <= 12
    &&& 1 <= d.day <= days_in_month(d.year as int, d.month as int)
}

/// The calendar day after `d`.
pub open spec fn date_succ(d: CivilDate) -> CivilDate {
    if (d.day as int) < days_in_month(d.year as int, d.month as int) {
        CivilDate { year: d.year, month: d.month, day: (d.day + 1) as u8 }
    } else if d.month < 12 {
        CivilDate { year: d.year, month: (d.month + 1) as u8, day: 1 }
    } else {
        CivilDate { year: (d.year + 1) as i32, month: 1, day: 1 }
    }
}

fn days_in_month_of(year: i32, month: u8) -> (r: u8)
    requires
        0 <= year,
        1 <= month <= 12,
    ensures
        r as int == days_in_month(year as int, month as int),
{
    if month == 2 {
        if (year % 4 == 0 && year % 100 != 0) || year % 400 == 0 {
            29
        } else {
            28
        }
    } else if month == 4 || month == 6 || month == 9 || month == 11 {
        30
    } else {
        31
    }
}

/// Whether `d` is a real calendar date within the library's range.
pub fn is_valid_date(d: CivilDate) -> (r: bool)
    ensures
        r == date_valid(d),
{
    if d.year < 0 || d.year > 9999 {
        return false;
    }
    if d.month < 1 || d.month > 12 {
        return false;
    }
    1 <= d.day && d.day <= days_in_month_of(d.year, d.month)
}

/// The day after `d`; the last date of the range has no successor, which is
/// the one calendar-arithmetic overflow.
pub fn next_day(d: CivilDate) -> (r: Result<CivilDate, RefineError>)
    requires
        date_valid(d),
    ensures
        r is Ok <==> !(d.year == 9999 && d.month == 12 && d.day == 31),
        r matches Ok(n) ==> n == date_succ(d) && date_valid(n),
        r is Err ==> r == Err::<CivilDate, RefineError>(RefineError::Normalization),
{
    let dim = days_in_month_of(d.year, d.month);
    if d.day < dim {
        Ok(CivilDate { year: d.year, month: d.month, day: d.day + 1 })
    } else if d.month < 12 {
        Ok(CivilDate { year: d.year, month: d.month + 1, day: 1 })
    } else if d.year < 9999 {
        Ok(CivilDate { year: d.year + 1, month: 1, day: 1 })
    } else {
        Err(RefineError::Normalization)
    }
}

/// Resolves the day selector against the given current date: `Today` is the
/// date itself, `Tomorrow` its calendar successor.
pub fn resolve_day(day: Day, today: CivilDate) -> (r: Result<CivilDate, RefineError>)
    requires
        date_valid(today),
    ensures
        day == Day::Today ==> r == Ok::<CivilDate, RefineError>(today),
        day == Day::Tomorrow ==> (r is Ok <==> !(today.year == 9999 && today.month == 12
            && today.day == 31)),
        day == Day::Tomorrow ==> (r matches Ok(n) ==> n == date_succ(today)),
        r matches Ok(n) ==> date_valid(n),
        r is Err ==> r == Err::<CivilDate, RefineError>(RefineError::Normalization),
{
    match day {
        Day::Today => Ok(today),
        Day::Tomorrow => next_day(today),
    }
}

/// The character of a single decimal digit.
pub open spec fn digit_char(d: int) -> char {
    if d == 0 {
        '0'
    } else if d == 1 {
        '1'
    } else if d == 2 {
        '2'
    } else if d == 3 {
        '3'
    } else if d == 4 {
        '4'
    } else if d == 5 {
        '5'
    } else if d == 6 {
        '6'
    } else if d == 7 {
        '7'
    } else if d == 8 {
        '8'
    } else {
        '9'
    }
}

/// The date written as its ten tag characters: a four-digit year, a
/// two-digit month and a two-digit day, separated by dashes.
pub open spec fn date_chars(d: CivilDate) -> Seq<char> {
    seq![
        digit_char(d.year as int / 1000),
        digit_char((d.year as int / 100) % 10),
        digit_char((d.year as int / 10) % 10),
        digit_char(d.year as int % 10),
        '-',
        digit_char(d.month as int / 10),
        digit_char(d.month as int % 10),
        '-',
        digit_char(d.day as int / 10),
        digit_char(d.day as int % 10),
    ]
}

fn digit_str(d: u8) -> (r: &'static str)
    requires
        d < 10,
    ensures
        r@ == seq![digit_char(d as int)],
{
    proof {
        reveal_strlit("0");
        reveal_strlit("1");
        reveal_strlit("2");
        reveal_strlit("3");
        reveal_strlit("4");
        reveal_strlit("5");
        reveal_strlit("6");
        reveal_strlit("7");
        reveal_strlit("8");
        reveal_strlit("9");
    }
    let r = if d == 0 {
        "0"
    } else if d == 1 {
        "1"
    } else if d == 2 {
        "2"
    } else if d == 3 {
        "3"
    } else if d == 4 {
        "4"
    } else if d == 5 {
        "5"
    } else if d == 6 {
        "6"
    } else if d == 7 {
        "7"
    } else if d == 8 {
        "8"
    } else {
        "9"
    };
    proof {
        assert(r@ =~= seq![digit_char(d as int)]);
    }
    r
}

/// Writes the date as its `YYYY-MM-DD` tag.
pub fn date_tag(d: CivilDate) -> (r: String)
    requires
        date_valid(d),
    ensures
        r@ == date_chars(d),
{
    let mut s = String::new();
    s.append(digit_str((d.year / 1000) as u8));
    s.append(digit_str(((d.year / 100) % 10) as u8));
    s.append(digit_str(((d.year / 10) % 10) as u8));
    s.append(digit_str((d.year % 10) as u8));
    s.append("-");
    s.append(digit_str(d.month / 10));
    s.append(digit_str(d.month % 10));
    s.append("-");
    s.append(digit_str(d.day / 10));
    s.append(digit_str(d.day % 10));
    proof {
        reveal_strlit("-");
        assert(s@ =~= date_chars(d));
    }
    s
}

/// Relies on chrono's `Utc::now` converted with chrono-tz's `Europe::Oslo`
/// zone: the current civil year, month and day in Oslo. Per chrono's
/// `Datelike`, the month ranges over 1 to 12 and the day over 1 to 31.
#[verifier::external_body]
fn now_ymd_oslo() -> (r: (i64, u32, u32))
    ensures
        1 <= r.1 <= 12,
        1 <= r.2 <= 31,
{
    let now = chrono::Utc::now().with_timezone(&chrono_tz::Europe::Oslo);
    (
        chrono::Datelike::year(&now) as i64,
        chrono::Datelike::month(&now),
        chrono::Datelike::day(&now),
    )
}

/// The current date in the Oslo time zone. The clock decides the value, so
/// only its well-formedness can be promised; a date outside the library's
/// calendar range is a normalization failure.
pub fn current_date_oslo() -> (r: Result<CivilDate, RefineError>)
    ensures
        r matches Ok(d) ==> date_valid(d),
        r is Err ==> r == Err::<CivilDate, RefineError>(RefineError::Normalization),
{
    let (y, m, d) = now_ymd_oslo();
    if y < 0 || y > 9999 {
        return Err(RefineError::Normalization);
    }
    let date = CivilDate { year: y as i32, month: m as u8, day: d as u8 };
    if is_valid_date(date) {
        Ok(date)
    } else {
        Err(RefineError::Normalization)
    }
}

} // verus!
