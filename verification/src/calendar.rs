use chrono::{Datelike, NaiveDate};
use parsidate::{DateError, ParsiDate};
use vstd::prelude::*;
use vstd::string::StringExecFns;

use crate::text::{dec, digit_value, digits_value, fmt_int, is_digit, lemma_dec_digits, lemma_dec_length, lemma_zero_pad2, push_int, push_uint, zero_pad};

verus! {

/// A date of the Jalali (Persian) calendar.
#[derive(Debug, Clone, Copy, PartialEq, Eq, Structural)]
pub struct JalaliDate {
    pub year: i32,
    pub month: u32,
    pub day: u32,
}

/// Persian leap years by the 33-year cycle: positive years whose remainder
/// by 33 is 1, 5, 9, 13, 17, 22, 26 or 30.
pub open spec fn is_leap_year(year: int) -> bool {
    year > 0 && {
        let r = year % 33;
        r == 1 || r == 5 || r == 9 || r == 13 || r == 17 || r == 22 || r == 26 || r == 30
    }
}

/// The length of a month: 31 days for the first six, 30 for the next five,
/// and 30 or 29 for Esfand as the year is leap or not; 0 for a month number
/// outside 1..=12.
pub open spec fn days_in_month(year: int, month: int) -> int {
    if 1 <= month <= 6 {
        31
    } else if 7 <= month <= 11 {
        30
    } else if month == 12 {
        if is_leap_year(year) {
            30
        } else {
            29
        }
    } else {
        0
    }
}

/// A date `parsidate` accepts: year 1..=9999, month 1..=12, and a day of
/// that month.
pub open spec fn is_valid_date(year: int, month: int, day: int) -> bool {
    &&& 1 <= year <= 9999
    &&& 1 <= month <= 12
    &&& 1 <= day <= days_in_month(year, month)
}

impl JalaliDate {
    pub open spec fn valid(self) -> bool {
        is_valid_date(self.year as int, self.month as int, self.day as int)
    }
}

/// The date `months` months before `d`, the day clamped to the length of
/// the target month; `None` when `d` is not a valid date, when `months`
/// exceeds `i32::MAX`, or when the target year leaves 1..=9999.
pub open spec fn months_before(d: JalaliDate, months: u32) -> Option<JalaliDate> {
    if months > i32::MAX || !d.valid() {
        None
    } else {
        let total = (d.year as int) * 12 + (d.month as int - 1) - (months as int);
        let year = total / 12;
        let month = total % 12 + 1;
        if year < 1 || year > 9999 {
            None
        } else {
            let dim = days_in_month(year, month);
            Some(JalaliDate { year: year as i32, month: month as u32, day: if d.day <= dim { d.day } else { dim as u32 } })
        }
    }
}

/// The Persian name of month `month` (1 for Farvardin), as `parsidate`
/// writes it for `%B`.
pub open spec fn persian_month_name(month: u32) -> Seq<char> {
    if month == 1 {
        "فروردین"@
    } else if month == 2 {
        "اردیبهشت"@
    } else if month == 3 {
        "خرداد"@
    } else if month == 4 {
        "تیر"@
    } else if month == 5 {
        "مرداد"@
    } else if month == 6 {
        "شهریور"@
    } else if month == 7 {
        "مهر"@
    } else if month == 8 {
        "آبان"@
    } else if month == 9 {
        "آذر"@
    } else if month == 10 {
        "دی"@
    } else if month == 11 {
        "بهمن"@
    } else {
        "اسفند"@
    }
}

/// The library's failure for a date `parsidate` refuses.
#[derive(Debug, Clone, Copy, PartialEq, Eq, Structural)]
pub enum CalendarError {
    /// Not a date of the supported calendar range.
    InvalidDate,
    /// A date the conversion between the calendars cannot carry over.
    GregorianConversion,
    /// A text that is not a date written as YYYY/MM/DD.
    Unparsable,
}

// ---------------------------------------------------------------------
// Trusted items: the calls into `parsidate`.
// ---------------------------------------------------------------------

#[verifier::external_type_specification]
#[verifier::external_body]
pub struct ExDateError(DateError);

/// `ParsiDate::is_persian_leap_year`: the 33-year cycle rule.
#[verifier::external_body]
fn persian_leap_year(year: i32) -> (r: bool)
    ensures
        r == is_leap_year(year as int),
{
    ParsiDate::is_persian_leap_year(year)
}

/// `ParsiDate::new`: the date when it is valid, else the crate's error.
#[verifier::external_body]
fn parsi_new(year: i32, month: u32, day: u32) -> (r: Result<JalaliDate, DateError>)
    ensures
        r is Ok <==> is_valid_date(year as int, month as int, day as int),
        r is Ok ==> r->Ok_0 == (JalaliDate { year, month, day }),
{
    match ParsiDate::new(year, month, day) {
        Ok(p) => Ok(JalaliDate { year: p.year(), month: p.month(), day: p.day() }),
        Err(e) => Err(e),
    }
}

/// `ParsiDate::first_day_of_month` (on a valid date: it debug-asserts
/// validity): day 1 of the same month.
#[verifier::external_body]
fn first_day_of_month(d: JalaliDate) -> (r: JalaliDate)
    requires
        d.valid(),
    ensures
        r == (JalaliDate { year: d.year, month: d.month, day: 1 }),
{
    let p = ParsiDate::new(d.year, d.month, d.day).unwrap().first_day_of_month();
    JalaliDate { year: p.year(), month: p.month(), day: p.day() }
}

/// `ParsiDate::last_day_of_month` (on a valid date: it debug-asserts
/// validity): the last day of the same month.
#[verifier::external_body]
fn last_day_of_month(d: JalaliDate) -> (r: JalaliDate)
    requires
        d.valid(),
    ensures
        r == (JalaliDate { year: d.year, month: d.month, day: days_in_month(d.year as int, d.month as int) as u32 }),
{
    let p = ParsiDate::new(d.year, d.month, d.day).unwrap().last_day_of_month();
    JalaliDate { year: p.year(), month: p.month(), day: p.day() }
}

/// `ParsiDate::sub_months` (through `add_months`): moves back whole months
/// and clamps the day; the crate's error when `months_before` gives none.
#[verifier::external_body]
fn sub_months(d: JalaliDate, months: u32) -> (r: Result<JalaliDate, DateError>)
    requires
        d.valid(),
    ensures
        r is Ok <==> months_before(d, months) is Some,
        r is Ok ==> r->Ok_0 == months_before(d, months)->0,
{
    match ParsiDate::new(d.year, d.month, d.day).unwrap().sub_months(months) {
        Ok(p) => Ok(JalaliDate { year: p.year(), month: p.month(), day: p.day() }),
        Err(e) => Err(e),
    }
}

/// `ParsiDate::format` with the pattern "%B": the Persian month name.
#[verifier::external_body]
fn month_name_fa(d: JalaliDate) -> (r: String)
    requires
        d.valid(),
    ensures
        r@ == persian_month_name(d.month),
{
    ParsiDate::new(d.year, d.month, d.day).unwrap().format("%B")
}

/// The date when it is valid.
fn try_date(year: i32, month: u32, day: u32) -> (r: Result<JalaliDate, CalendarError>)
    ensures
        r == (if is_valid_date(year as int, month as int, day as int) {
            Ok(JalaliDate { year, month, day })
        } else {
            Err(CalendarError::InvalidDate)
        }),
{
    match parsi_new(year, month, day) {
        Ok(d) => Ok(d),
        Err(_) => Err(CalendarError::InvalidDate),
    }
}

// ---------------------------------------------------------------------
// Date lists.
// ---------------------------------------------------------------------

/// The valid dates `year/month/1` .. `year/month/upto`, in order.
pub open spec fn month_dates(year: i32, month: u32, upto: nat) -> Seq<JalaliDate>
    decreases upto,
{
    if upto == 0 {
        Seq::empty()
    } else {
        let rest = month_dates(year, month, (upto - 1) as nat);
        if is_valid_date(year as int, month as int, upto as int) {
            rest.push(JalaliDate { year, month, day: upto as u32 })
        } else {
            rest
        }
    }
}

/// The valid dates of the first `upto` months of `year`, in order.
pub open spec fn year_dates(year: i32, upto: nat) -> Seq<JalaliDate>
    decreases upto,
{
    if upto == 0 {
        Seq::empty()
    } else {
        year_dates(year, (upto - 1) as nat) + month_dates(
            year,
            upto as u32,
            days_in_month(year as int, upto as int) as nat,
        )
    }
}

/// Every valid date of `year` and of the year after, in calendar order.
pub fn generate_dates_for_current_and_next_year(current_year: i32) -> (dates: Vec<JalaliDate>)
    requires
        current_year < i32::MAX,
    ensures
        dates@ == year_dates(current_year, 12) + year_dates((current_year + 1) as i32, 12),
{
    let mut dates: Vec<JalaliDate> = Vec::with_capacity(366 * 2);
    let mut offset: i32 = 0;
    while offset < 2
        invariant
            current_year < i32::MAX,
            0 <= offset <= 2,
            dates@ == if offset == 0 {
                Seq::empty()
            } else if offset == 1 {
                year_dates(current_year, 12)
            } else {
                year_dates(current_year, 12) + year_dates((current_year + 1) as i32, 12)
            },
        decreases 2 - offset,
    {
        let year = current_year + offset;
        let ghost before = dates@;
        let mut month: u32 = 1;
        while month <= 12
            invariant
                1 <= month <= 13,
                dates@ == before + year_dates(year, (month - 1) as nat),
            decreases 13 - month,
        {
            let max_days: u32 = if month <= 6 {
                31
            } else if month <= 11 {
                30
            } else if persian_leap_year(year) {
                30
            } else {
                29
            };
            let ghost mid = dates@;
            let mut day: u32 = 1;
            while day <= max_days
                invariant
                    1 <= month <= 12,
                    max_days == days_in_month(year as int, month as int),
                    1 <= day <= max_days + 1,
                    dates@ == mid + month_dates(year, month, (day - 1) as nat),
                decreases max_days + 1 - day,
            {
                if let Ok(date) = try_date(year, month, day) {
                    dates.push(date);
                }
                proof {
                    assert(dates@ =~= mid + month_dates(year, month, day as nat));
                }
                day = day + 1;
            }
            proof {
                assert(dates@ =~= before + year_dates(year, month as nat));
            }
            month = month + 1;
        }
        proof {
            assert(year_dates(year, 12) == year_dates(year, (month - 1) as nat));
            if offset == 0 {
                assert(dates@ =~= year_dates(current_year, 12));
            }
        }
        offset = offset + 1;
    }
    dates
}

/// How many days of month `month` the order and expense menus list: 31
/// for the first six months, 30 for the others.
pub open spec fn listed_days(month: int) -> int {
    if month <= 6 {
        31
    } else {
        30
    }
}

/// The listed days of one month, as year/MM/DD.
pub open spec fn month_strings(year: int, month: int) -> Seq<Seq<char>> {
    Seq::new(listed_days(month) as nat, |i: int| slash_date_text(year, month, i + 1, 0))
}

/// The listed days of the first `upto` months of `year`.
pub open spec fn year_strings(year: int, upto: nat) -> Seq<Seq<char>>
    decreases upto,
{
    if upto == 0 {
        Seq::empty()
    } else {
        year_strings(year, (upto - 1) as nat) + month_strings(year, upto as int)
    }
}

/// The date list the order and expense menus offer: the listed days of
/// `current_year` and of the year after.
pub open spec fn menu_date_strings(current_year: int) -> Seq<Seq<char>> {
    year_strings(current_year, 12) + year_strings(current_year + 1, 12)
}

/// `year/MM/DD`, the year padded to `year_width` digits.
pub open spec fn slash_date_text(year: int, month: int, day: int, year_width: nat) -> Seq<char> {
    fmt_int(year, year_width) + "/"@ + fmt_int(month, 2) + "/"@ + fmt_int(day, 2)
}

/// Writes `year/MM/DD`, the year padded to `year_width` digits.
fn slash_date_string(year: i32, month: u32, day: u32, year_width: usize) -> (s: String)
    ensures
        s@ == slash_date_text(year as int, month as int, day as int, year_width as nat),
{
    let mut s = String::new();
    push_int(&mut s, year, year_width);
    s.append("/");
    push_uint(&mut s, month, 2);
    s.append("/");
    push_uint(&mut s, day, 2);
    proof {
        assert(s@ =~= slash_date_text(year as int, month as int, day as int, year_width as nat));
    }
    s
}

/// The dates offered by the order and expense menus (see
/// `menu_date_strings`).
pub fn generate_dates(current_year: i32) -> (r: Vec<String>)
    requires
        current_year <= i32::MAX - 2,
    ensures
        r@.map_values(|s: String| s@) == menu_date_strings(current_year as int),
{
    let mut result: Vec<String> = Vec::with_capacity(365 * 2);
    let mut y: i32 = 0;
    while y < 2
        invariant
            0 <= y <= 2,
            current_year <= i32::MAX - 2,
            result@.map_values(|s: String| s@) == if y == 0 {
                Seq::empty()
            } else if y == 1 {
                year_strings(current_year as int, 12)
            } else {
                menu_date_strings(current_year as int)
            },
        decreases 2 - y,
    {
        let year = current_year + y;
        let ghost before = result@.map_values(|s: String| s@);
        let mut month: u32 = 1;
        while month <= 12
            invariant
                0 <= y < 2,
                year == current_year + y,
                1 <= month <= 13,
                result@.map_values(|s: String| s@) == before + year_strings(year as int, (month - 1) as nat),
            decreases 13 - month,
        {
            let ghost mid = result@.map_values(|s: String| s@);
            let ghost ms = month_strings(year as int, month as int);
            let mut day: u32 = 1;
            while day <= 31
                invariant
                    1 <= month <= 12,
                    1 <= day <= 32,
                    ms == month_strings(year as int, month as int),
                    result@.map_values(|s: String| s@) == mid + ms.take(
                        if day - 1 <= listed_days(month as int) { day - 1 } else { listed_days(month as int) },
                    ),
                decreases 32 - day,
            {
                if month >= 7 && day == 31 {
                    day = day + 1;
                    continue;
                }
                let text = slash_date_string(year, month, day, 0);
                let ghost prev = result@;
                result.push(text);
                proof {
                    assert(prev.map_values(|s: String| s@) =~= mid + ms.take(day - 1));
                    assert(result@.map_values(|s: String| s@) =~= prev.map_values(|s: String| s@).push(text@));
                    assert(day as int <= listed_days(month as int));
                    assert(ms.take(day as int) =~= ms.take(day - 1).push(ms[day - 1]));
                    assert(ms[day - 1] == slash_date_text(year as int, month as int, day as int, 0));
                    assert(result@.map_values(|s: String| s@) =~= mid + ms.take(day as int));
                }
                day = day + 1;
            }
            proof {
                assert(ms.take(listed_days(month as int)) =~= ms);
                assert(result@.map_values(|s: String| s@) =~= before + year_strings(year as int, month as nat));
            }
            month = month + 1;
        }
        proof {
            if y == 0 {
                assert(result@.map_values(|s: String| s@) =~= year_strings(current_year as int, 12));
            }
        }
        y = y + 1;
    }
    result
}

// ---------------------------------------------------------------------
// The date filter menu.
// ---------------------------------------------------------------------

/// A period to list records for.
pub enum DateFilter {
    /// The previous month, by its Persian name.
    LastMonth(String),
    /// The current month, by its Persian name.
    ThisMonth(String),
    Range { start: JalaliDate, end: JalaliDate },
    All,
}

/// The month before `month` of `year`, as (month, year).
pub fn previous_month(year: i32, month: u32) -> (r: (u32, i32))
    requires
        month >= 1,
        month == 1 ==> year > i32::MIN,
    ensures
        r == (if month == 1 { (12u32, (year - 1) as i32) } else { ((month - 1) as u32, year) }),
{
    if month == 1 {
        (12, year - 1)
    } else {
        (month - 1, year)
    }
}

/// The filter menu for a day: the names of last month and of this month,
/// and the four options shown.
pub struct DateMenu {
    pub last_month_name: String,
    pub current_month_name: String,
    pub options: Vec<String>,
}

/// The menu texts, for given month names.
pub open spec fn menu_options(last: Seq<char>, current: Seq<char>) -> Seq<Seq<char>> {
    seq!["Last Month ("@ + last + ")"@, "This Month ("@ + current + ")"@, "Range"@, "All"@]
}

/// The filter menu for `today`; an error when the first day of the
/// previous month is not a date `parsidate` accepts (the previous month of
/// year 1's first month).
pub fn date_menu(today: JalaliDate) -> (r: Result<DateMenu, CalendarError>)
    requires
        today.valid(),
    ensures
        ({
            let (lm, ly) = if today.month == 1 { (12u32, today.year - 1) } else { ((today.month - 1) as u32, today.year as int) };
            match r {
                Err(e) => e == CalendarError::InvalidDate && !is_valid_date(ly, lm as int, 1),
                Ok(m) => {
                    &&& is_valid_date(ly, lm as int, 1)
                    &&& m.last_month_name@ == persian_month_name(lm)
                    &&& m.current_month_name@ == persian_month_name(today.month)
                    &&& m.options@.map_values(|s: String| s@) == menu_options(m.last_month_name@, m.current_month_name@)
                }
            }
        }),
{
    let current_month_name = month_name_fa(today);
    let (last_month_num, last_month_year) = previous_month(today.year, today.month);
    let last_month_date = match try_date(last_month_year, last_month_num, 1) {
        Ok(d) => d,
        Err(e) => return Err(e),
    };
    let last_month_name = month_name_fa(last_month_date);
    let mut last = String::from_str("Last Month (");
    last.append(last_month_name.as_str());
    last.append(")");
    let mut this = String::from_str("This Month (");
    this.append(current_month_name.as_str());
    this.append(")");
    let mut options: Vec<String> = Vec::new();
    options.push(last);
    options.push(this);
    options.push(String::from_str("Range"));
    options.push(String::from_str("All"));
    proof {
        assert(options@.map_values(|s: String| s@) =~= menu_options(last_month_name@, current_month_name@));
    }
    Ok(DateMenu { last_month_name, current_month_name, options })
}

/// A date as listings show it (`ParsiDate`'s `Display`): year/MM/DD.
pub fn display_date(d: JalaliDate) -> (s: String)
    ensures
        s@ == slash_date_text(d.year as int, d.month as int, d.day as int, 0),
{
    slash_date_string(d.year, d.month, d.day, 0)
}

/// A date as the range pickers show it: YYYY/MM/DD.
pub fn picker_date_string(d: JalaliDate) -> (s: String)
    ensures
        s@ == slash_date_text(d.year as int, d.month as int, d.day as int, 4),
{
    slash_date_string(d.year, d.month, d.day, 4)
}

/// The picker texts of a list of dates, in the same order.
pub fn picker_date_strings(dates: &Vec<JalaliDate>) -> (r: Vec<String>)
    ensures
        r@.len() == dates@.len(),
        forall|i: int| 0 <= i < dates@.len() ==> #[trigger] r@[i]@ == slash_date_text(
            dates@[i].year as int,
            dates@[i].month as int,
            dates@[i].day as int,
            4,
        ),
{
    let mut r: Vec<String> = Vec::new();
    let mut i: usize = 0;
    while i < dates.len()
        invariant
            i <= dates@.len(),
            r@.len() == i,
            forall|j: int| 0 <= j < i ==> #[trigger] r@[j]@ == slash_date_text(
                dates@[j].year as int,
                dates@[j].month as int,
                dates@[j].day as int,
                4,
            ),
        decreases dates@.len() - i,
    {
        r.push(picker_date_string(dates[i]));
        i = i + 1;
    }
    r
}

// ---------------------------------------------------------------------
// Month periods for reports.
// ---------------------------------------------------------------------

/// The English names the report menu uses, indexed from 0.
pub open spec fn english_month_names() -> Seq<Seq<char>> {
    seq![
        "Farvardin"@,
        "Ordibehesht"@,
        "Khordad"@,
        "Tir"@,
        "Mordad"@,
        "Shahrivar"@,
        "Mehr"@,
        "Aban"@,
        "Azar"@,
        "Dey"@,
        "Bahman"@,
        "Esfand"@,
    ]
}

/// The entry `index` of the English month-name table.
pub fn english_month_name(index: usize) -> (s: String)
    requires
        index < 12,
    ensures
        s@ == english_month_names()[index as int],
{
    let name = match index {
        0 => "Farvardin",
        1 => "Ordibehesht",
        2 => "Khordad",
        3 => "Tir",
        4 => "Mordad",
        5 => "Shahrivar",
        6 => "Mehr",
        7 => "Aban",
        8 => "Azar",
        9 => "Dey",
        10 => "Bahman",
        _ => "Esfand",
    };
    String::from_str(name)
}

/// The first and the last day of the month of `d`.
pub fn month_range(d: JalaliDate) -> (r: (JalaliDate, JalaliDate))
    requires
        d.valid(),
    ensures
        r.0 == (JalaliDate { year: d.year, month: d.month, day: 1 }),
        r.1 == (JalaliDate { year: d.year, month: d.month, day: days_in_month(d.year as int, d.month as int) as u32 }),
{
    (first_day_of_month(d), last_day_of_month(d))
}

/// The report period of the current month: the name-table entry at
/// today's month number, and the first and last day of this month.
pub fn current_month_tuple(today: JalaliDate) -> (r: (String, JalaliDate, JalaliDate))
    requires
        today.valid(),
        today.month < 12,
    ensures
        r.0@ == english_month_names()[today.month as int],
        r.1 == (JalaliDate { year: today.year, month: today.month, day: 1 }),
        r.2 == (JalaliDate { year: today.year, month: today.month, day: days_in_month(today.year as int, today.month as int) as u32 }),
{
    let (start, end) = month_range(today);
    (english_month_name(today.month as usize), start, end)
}

/// The report period of the previous month: the name-table entry at
/// today's month number, and the first and last day of the month one month
/// before today.
pub fn prev_month_tuple(today: JalaliDate) -> (r: (String, JalaliDate, JalaliDate))
    requires
        today.valid(),
        today.month < 12,
        months_before(today, 1) is Some,
    ensures
        ({
            let p = months_before(today, 1)->0;
            &&& r.0@ == english_month_names()[today.month as int]
            &&& r.1 == (JalaliDate { year: p.year, month: p.month, day: 1 })
            &&& r.2 == (JalaliDate { year: p.year, month: p.month, day: days_in_month(p.year as int, p.month as int) as u32 })
        }),
{
    let earlier = sub_months(today, 1).unwrap();
    proof {
        lemma_months_before_valid(today, 1);
    }
    let (start, end) = month_range(earlier);
    (english_month_name(today.month as usize), start, end)
}

/// Whether the date one month before `today` is in the supported range.
pub fn has_previous_month(today: JalaliDate) -> (r: bool)
    requires
        today.valid(),
    ensures
        r == (months_before(today, 1) is Some),
{
    sub_months(today, 1).is_ok()
}

/// A date `months_before` gives is valid.
pub proof fn lemma_months_before_valid(d: JalaliDate, months: u32)
    requires
        months_before(d, months) is Some,
    ensures
        months_before(d, months)->0.valid(),
{
}

// ---------------------------------------------------------------------
// Laws of the date lists.
// ---------------------------------------------------------------------

/// A date is listed among the first `upto` days of a month exactly when it
/// is a valid date of that month with a day up to `upto`.
proof fn lemma_month_dates_member(year: i32, month: u32, upto: nat, d: JalaliDate)
    ensures
        month_dates(year, month, upto).contains(d) <==> (d.year == year && d.month == month && 1 <= d.day
            <= upto && d.valid()),
    decreases upto,
{
    if upto > 0 {
        lemma_month_dates_member(year, month, (upto - 1) as nat, d);
        let rest = month_dates(year, month, (upto - 1) as nat);
        let date = JalaliDate { year, month, day: upto as u32 };
        if is_valid_date(year as int, month as int, upto as int) {
            assert(rest.push(date).contains(d) <==> (rest.contains(d) || d == date)) by {
                if rest.push(date).contains(d) {
                    let k = choose|k: int| 0 <= k < rest.push(date).len() && rest.push(date)[k] == d;
                    if k < rest.len() {
                        assert(rest[k] == d);
                    }
                }
                if rest.contains(d) {
                    let k = choose|k: int| 0 <= k < rest.len() && rest[k] == d;
                    assert(rest.push(date)[k] == d);
                }
                if d == date {
                    assert(rest.push(date)[rest.len() as int] == d);
                }
            }
        }
    }
}

/// A date is listed among the first `upto` months of a year exactly when
/// it is a valid date of that year in one of those months.
proof fn lemma_year_dates_member(year: i32, upto: nat, d: JalaliDate)
    requires
        upto <= 12,
    ensures
        year_dates(year, upto).contains(d) <==> (d.year == year && 1 <= d.month <= upto && d.valid()),
    decreases upto,
{
    if upto > 0 {
        lemma_year_dates_member(year, (upto - 1) as nat, d);
        let a = year_dates(year, (upto - 1) as nat);
        let b = month_dates(year, upto as u32, days_in_month(year as int, upto as int) as nat);
        lemma_month_dates_member(year, upto as u32, days_in_month(year as int, upto as int) as nat, d);
        lemma_concat_contains(a, b, d);
    }
}

/// An element of a concatenation is an element of one of its parts.
proof fn lemma_concat_contains(a: Seq<JalaliDate>, b: Seq<JalaliDate>, d: JalaliDate)
    ensures
        (a + b).contains(d) <==> (a.contains(d) || b.contains(d)),
{
    if (a + b).contains(d) {
        let k = choose|k: int| 0 <= k < (a + b).len() && (a + b)[k] == d;
        if k < a.len() {
            assert(a[k] == d);
        } else {
            assert(b[k - a.len()] == d);
        }
    }
    if a.contains(d) {
        let k = choose|k: int| 0 <= k < a.len() && a[k] == d;
        assert((a + b)[k] == d);
    }
    if b.contains(d) {
        let k = choose|k: int| 0 <= k < b.len() && b[k] == d;
        assert((a + b)[k + a.len()] == d);
    }
}

/// The dates generated for a year hold every valid date of that year and
/// of the next, and nothing else.
pub proof fn lemma_generated_dates_are_the_valid_dates(current_year: i32, d: JalaliDate)
    requires
        current_year < i32::MAX,
    ensures
        (year_dates(current_year, 12) + year_dates((current_year + 1) as i32, 12)).contains(d) <==> (d.valid()
            && (d.year == current_year || d.year == current_year + 1)),
{
    lemma_year_dates_member(current_year, 12, d);
    lemma_year_dates_member((current_year + 1) as i32, 12, d);
    lemma_concat_contains(year_dates(current_year, 12), year_dates((current_year + 1) as i32, 12), d);
}

/// The menu date list has 366 entries a year, 732 in all.
pub proof fn lemma_menu_date_count(current_year: int)
    ensures
        menu_date_strings(current_year).len() == 732,
{
    assert(year_strings(current_year, 12).len() == 366) by {
        reveal_with_fuel(year_strings, 13);
    }
    assert(year_strings(current_year + 1, 12).len() == 366) by {
        reveal_with_fuel(year_strings, 13);
    }
}

/// `a` comes before `b` in the calendar.
pub open spec fn date_before(a: JalaliDate, b: JalaliDate) -> bool {
    a.year < b.year || (a.year == b.year && (a.month < b.month || (a.month == b.month && a.day < b.day)))
}

/// The dates are in strictly increasing calendar order.
pub open spec fn increasing(s: Seq<JalaliDate>) -> bool {
    forall|i: int, j: int| 0 <= i < j < s.len() ==> date_before(#[trigger] s[i], #[trigger] s[j])
}

/// Two increasing lists, the first wholly before the second, make an
/// increasing list.
proof fn lemma_concat_increasing(a: Seq<JalaliDate>, b: Seq<JalaliDate>)
    requires
        increasing(a),
        increasing(b),
        forall|i: int, j: int| 0 <= i < a.len() && 0 <= j < b.len() ==> date_before(#[trigger] a[i], #[trigger] b[j]),
    ensures
        increasing(a + b),
{
    let c = a + b;
    assert forall|i: int, j: int| 0 <= i < j < c.len() implies date_before(#[trigger] c[i], #[trigger] c[j]) by {
        if j < a.len() {
            assert(c[i] == a[i] && c[j] == a[j]);
        } else if i < a.len() {
            assert(c[i] == a[i] && c[j] == b[j - a.len()]);
        } else {
            assert(c[i] == b[i - a.len()] && c[j] == b[j - a.len()]);
        }
    }
}

/// The days listed for a month are that month's, up to `upto`, in order.
proof fn lemma_month_dates_increasing(year: i32, month: u32, upto: nat)
    ensures
        increasing(month_dates(year, month, upto)),
        forall|i: int| 0 <= i < month_dates(year, month, upto).len() ==> {
            let d = #[trigger] month_dates(year, month, upto)[i];
            d.year == year && d.month == month && d.day <= upto
        },
    decreases upto,
{
    if upto > 0 {
        lemma_month_dates_increasing(year, month, (upto - 1) as nat);
        let rest = month_dates(year, month, (upto - 1) as nat);
        if is_valid_date(year as int, month as int, upto as int) {
            let s = rest.push(JalaliDate { year, month, day: upto as u32 });
            assert forall|i: int, j: int| 0 <= i < j < s.len() implies date_before(#[trigger] s[i], #[trigger] s[j]) by {
                assert(s[i] == rest[i]);
                if j < rest.len() {
                    assert(s[j] == rest[j]);
                }
            }
            assert forall|i: int| 0 <= i < s.len() implies {
                let d = #[trigger] s[i];
                d.year == year && d.month == month && d.day <= upto
            } by {
                if i < rest.len() {
                    assert(s[i] == rest[i]);
                }
            }
        }
    }
}

/// The days listed for the first `upto` months of a year are that year's,
/// in those months, in order.
proof fn lemma_year_dates_increasing(year: i32, upto: nat)
    ensures
        increasing(year_dates(year, upto)),
        forall|i: int| 0 <= i < year_dates(year, upto).len() ==> {
            let d = #[trigger] year_dates(year, upto)[i];
            d.year == year && d.month <= upto
        },
    decreases upto,
{
    if upto > 0 {
        lemma_year_dates_increasing(year, (upto - 1) as nat);
        let a = year_dates(year, (upto - 1) as nat);
        let b = month_dates(year, upto as u32, days_in_month(year as int, upto as int) as nat);
        lemma_month_dates_increasing(year, upto as u32, days_in_month(year as int, upto as int) as nat);
        assert forall|i: int, j: int| 0 <= i < a.len() && 0 <= j < b.len() implies date_before(#[trigger] a[i], #[trigger] b[j]) by {
            assert(a[i].month <= upto - 1);
            assert(b[j].month == upto as u32);
        }
        lemma_concat_increasing(a, b);
        let c = a + b;
        assert forall|i: int| 0 <= i < c.len() implies {
            let d = #[trigger] c[i];
            d.year == year && d.month <= upto
        } by {
            if i < a.len() {
                assert(c[i] == a[i]);
            } else {
                assert(c[i] == b[i - a.len()]);
            }
        }
    }
}

/// The generated dates are in strictly increasing calendar order.
pub proof fn lemma_generated_dates_increasing(current_year: i32)
    requires
        current_year < i32::MAX,
    ensures
        increasing(year_dates(current_year, 12) + year_dates((current_year + 1) as i32, 12)),
{
    let a = year_dates(current_year, 12);
    let b = year_dates((current_year + 1) as i32, 12);
    lemma_year_dates_increasing(current_year, 12);
    lemma_year_dates_increasing((current_year + 1) as i32, 12);
    assert forall|i: int, j: int| 0 <= i < a.len() && 0 <= j < b.len() implies date_before(#[trigger] a[i], #[trigger] b[j]) by {
        assert(a[i].year == current_year);
        assert(b[j].year == current_year + 1);
    }
    lemma_concat_increasing(a, b);
}

// ---------------------------------------------------------------------
// Gregorian dates.
// ---------------------------------------------------------------------

/// Gregorian leap years: divisible by 4, and by 400 when divisible by 100.
pub open spec fn is_gregorian_leap_year(year: int) -> bool {
    (year % 4 == 0 && year % 100 != 0) || year % 400 == 0
}

/// The length of a Gregorian month.
pub open spec fn gregorian_days_in_month(year: int, month: int) -> int {
    if month == 2 {
        if is_gregorian_leap_year(year) {
            29
        } else {
            28
        }
    } else if month == 4 || month == 6 || month == 9 || month == 11 {
        30
    } else {
        31
    }
}

/// A date `chrono::NaiveDate::from_ymd_opt` accepts: a day of a month of a
/// year in -262143..=262142.
pub open spec fn is_gregorian_date(year: int, month: int, day: int) -> bool {
    &&& -262143 <= year <= 262142
    &&& 1 <= month <= 12
    &&& 1 <= day <= gregorian_days_in_month(year, month)
}

/// The Gregorian calendar's month lengths within chrono's year range:
/// every month has days 1 through 28; the 29th exists except in February
/// of a common year (a year divisible by 4 but not by 100, or divisible by
/// 400, is a leap year); the 30th except in February; the 31st only in
/// January, March, May, July, August, October and December; and no month
/// has a 32nd.
pub proof fn lemma_gregorian_month_lengths(year: int, month: int)
    requires
        -262143 <= year <= 262142,
        1 <= month <= 12,
    ensures
        forall|day: int| 1 <= day <= 28 ==> #[trigger] is_gregorian_date(year, month, day),
        is_gregorian_date(year, month, 29) <==> (month != 2 || (year % 4 == 0 && year % 100 != 0) || year % 400 == 0),
        is_gregorian_date(year, month, 30) <==> month != 2,
        is_gregorian_date(year, month, 31) <==> (month == 1 || month == 3 || month == 5 || month == 7 || month == 8
            || month == 10 || month == 12),
        forall|day: int| day < 1 || day > 31 ==> !#[trigger] is_gregorian_date(year, month, day),
{
}

/// No date outside chrono's year range -262143..=262142 or outside months
/// 1..=12 is accepted.
pub proof fn lemma_gregorian_range(year: int, month: int, day: int)
    requires
        year < -262143 || year > 262142 || month < 1 || month > 12,
    ensures
        !is_gregorian_date(year, month, day),
{
}

/// Whether `chrono` accepts year/month/day as a date.
pub fn gregorian_date_exists(year: i32, month: u32, day: u32) -> (r: bool)
    ensures
        r == is_gregorian_date(year as int, month as int, day as int),
{
    if year < -262143 || year > 262142 || month < 1 || month > 12 || day < 1 {
        return false;
    }
    let leap = (year % 4 == 0 && year % 100 != 0) || year % 400 == 0;
    let days: u32 = if month == 2 {
        if leap {
            29
        } else {
            28
        }
    } else if month == 4 || month == 6 || month == 9 || month == 11 {
        30
    } else {
        31
    };
    proof {
        assert(leap == is_gregorian_leap_year(year as int)) by {
            assert((year % 4 == 0) == ((year as int) % 4 == 0));
            assert((year % 100 == 0) == ((year as int) % 100 == 0));
            assert((year % 400 == 0) == ((year as int) % 400 == 0));
        }
    }
    day <= days
}

/// The Gregorian date of a valid Jalali date, as `ParsiDate::to_gregorian`
/// gives it as (year, month, day); `None` where it fails. A function of the
/// date alone.
pub uninterp spec fn gregorian_of(year: int, month: int, day: int) -> Option<(int, int, int)>;

/// The Jalali date of a Gregorian date, as `ParsiDate::from_gregorian`
/// gives it as (year, month, day); `None` where it fails. A function of the
/// date alone.
pub uninterp spec fn jalali_of(year: int, month: int, day: int) -> Option<(int, int, int)>;

/// `ParsiDate::to_gregorian` on a valid date (checked by `ParsiDate::new`):
/// the Gregorian year, month and day, or the crate's error.
#[verifier::external_body]
fn parsi_to_gregorian(d: JalaliDate) -> (r: Result<(i32, u32, u32), DateError>)
    requires
        d.valid(),
    ensures
        r is Ok <==> gregorian_of(d.year as int, d.month as int, d.day as int) is Some,
        r is Ok ==> gregorian_of(d.year as int, d.month as int, d.day as int) == Some(
            (r->Ok_0.0 as int, r->Ok_0.1 as int, r->Ok_0.2 as int),
        ),
{
    match ParsiDate::new(d.year, d.month, d.day).unwrap().to_gregorian() {
        Ok(g) => Ok((g.year(), g.month(), g.day())),
        Err(e) => Err(e),
    }
}

/// `ParsiDate::from_gregorian` on a date `chrono` accepts (built with
/// `NaiveDate::from_ymd_opt`): the Jalali date, or the crate's error. What
/// it returns passed `ParsiDate::new`, so it is valid.
#[verifier::external_body]
fn parsi_from_gregorian(year: i32, month: u32, day: u32) -> (r: Result<JalaliDate, DateError>)
    requires
        is_gregorian_date(year as int, month as int, day as int),
    ensures
        r is Ok <==> jalali_of(year as int, month as int, day as int) is Some,
        r is Ok ==> jalali_of(year as int, month as int, day as int) == Some(
            (r->Ok_0.year as int, r->Ok_0.month as int, r->Ok_0.day as int),
        ),
        r is Ok ==> r->Ok_0.valid(),
{
    match ParsiDate::from_gregorian(NaiveDate::from_ymd_opt(year, month, day).unwrap()) {
        Ok(p) => Ok(JalaliDate { year: p.year(), month: p.month(), day: p.day() }),
        Err(e) => Err(e),
    }
}

/// The Gregorian (year, month, day) of a valid Jalali date.
pub fn to_gregorian(d: JalaliDate) -> (r: Result<(i32, u32, u32), CalendarError>)
    requires
        d.valid(),
    ensures
        match r {
            Ok(g) => gregorian_of(d.year as int, d.month as int, d.day as int) == Some(
                (g.0 as int, g.1 as int, g.2 as int),
            ),
            Err(e) => e == CalendarError::GregorianConversion && gregorian_of(
                d.year as int,
                d.month as int,
                d.day as int,
            ) is None,
        },
{
    match parsi_to_gregorian(d) {
        Ok(g) => Ok(g),
        Err(_) => Err(CalendarError::GregorianConversion),
    }
}

/// The Jalali date of a Gregorian year/month/day: an invalid-date error
/// when `chrono` has no such date, a conversion error where `parsidate`
/// fails.
pub fn from_gregorian(year: i32, month: u32, day: u32) -> (r: Result<JalaliDate, CalendarError>)
    ensures
        match r {
            Ok(j) => is_gregorian_date(year as int, month as int, day as int) && jalali_of(
                year as int,
                month as int,
                day as int,
            ) == Some((j.year as int, j.month as int, j.day as int)) && j.valid(),
            Err(e) => if is_gregorian_date(year as int, month as int, day as int) {
                e == CalendarError::GregorianConversion && jalali_of(year as int, month as int, day as int) is None
            } else {
                e == CalendarError::InvalidDate
            },
        },
{
    if !gregorian_date_exists(year, month, day) {
        return Err(CalendarError::InvalidDate);
    }
    match parsi_from_gregorian(year, month, day) {
        Ok(j) => Ok(j),
        Err(_) => Err(CalendarError::GregorianConversion),
    }
}

/// The Gregorian first and last day of the month of `today`.
pub fn month_bounds_gregorian(today: JalaliDate) -> (r: Result<((i32, u32, u32), (i32, u32, u32)), CalendarError>)
    requires
        today.valid(),
    ensures
        ({
            let first = gregorian_of(today.year as int, today.month as int, 1);
            let last = gregorian_of(
                today.year as int,
                today.month as int,
                days_in_month(today.year as int, today.month as int),
            );
            match r {
                Ok((s, e)) => first == Some((s.0 as int, s.1 as int, s.2 as int)) && last == Some(
                    (e.0 as int, e.1 as int, e.2 as int),
                ),
                Err(err) => err == CalendarError::GregorianConversion && (first is None || last is None),
            }
        }),
{
    let (start, end) = month_range(today);
    let s = match to_gregorian(start) {
        Ok(g) => g,
        Err(e) => return Err(e),
    };
    let e = match to_gregorian(end) {
        Ok(g) => g,
        Err(err) => return Err(err),
    };
    Ok((s, e))
}

// ---------------------------------------------------------------------
// Stored Gregorian dates.
// ---------------------------------------------------------------------

/// What `NaiveDate::parse_from_str` with the pattern "%Y-%m-%d" reads from
/// a text: (year, month, day), or `None` where it fails. A function of the
/// text alone.
pub uninterp spec fn stored_date_of(s: Seq<char>) -> Option<(int, int, int)>;

/// `NaiveDate::parse_from_str(s, "%Y-%m-%d")`, as (year, month, day). What
/// it returns is a `NaiveDate`, so a date `chrono` accepts.
#[verifier::external_body]
fn naive_parse_ymd(s: &str) -> (r: Option<(i32, u32, u32)>)
    ensures
        r is Some <==> stored_date_of(s@) is Some,
        r matches Some(g) ==> stored_date_of(s@) == Some((g.0 as int, g.1 as int, g.2 as int))
            && is_gregorian_date(g.0 as int, g.1 as int, g.2 as int),
{
    match NaiveDate::parse_from_str(s, "%Y-%m-%d") {
        Ok(d) => Some((d.year(), d.month(), d.day())),
        Err(_) => None,
    }
}

/// The Gregorian date a stored text names, if it reads as one.
pub fn parse_stored_date(text: &str) -> (r: Option<(i32, u32, u32)>)
    ensures
        r is Some <==> stored_date_of(text@) is Some,
        r matches Some(g) ==> stored_date_of(text@) == Some((g.0 as int, g.1 as int, g.2 as int))
            && is_gregorian_date(g.0 as int, g.1 as int, g.2 as int),
{
    naive_parse_ymd(text)
}

/// The date an order is listed under: its date, or 1970-01-01 (`NaiveDate`'s
/// default) when it has none.
pub fn order_listing_date(date: Option<(i32, u32, u32)>) -> (r: (i32, u32, u32))
    ensures
        r == match date {
            Some(g) => g,
            None => (1970i32, 1u32, 1u32),
        },
{
    match date {
        Some(g) => g,
        None => (1970, 1, 1),
    }
}

/// The listing date of a stored order: the date its text names, or
/// 1970-01-01 when the text does not read as a date.
pub fn stored_order_date(text: &str) -> (r: (i32, u32, u32))
    ensures
        r == match stored_date_of(text@) {
            Some((y, m, d)) => (y as i32, m as u32, d as u32),
            None => (1970i32, 1u32, 1u32),
        },
        is_gregorian_date(r.0 as int, r.1 as int, r.2 as int),
{
    order_listing_date(parse_stored_date(text))
}

/// The year as `NaiveDate`'s `Display` writes it: four digits for years
/// 0 through 9999, else with an explicit sign and at least four digits.
pub open spec fn iso_year_text(year: int) -> Seq<char> {
    if 0 <= year <= 9999 {
        fmt_int(year, 4)
    } else if year < 0 {
        fmt_int(year, 5)
    } else {
        "+"@ + fmt_int(year, 0)
    }
}

/// A date as `NaiveDate`'s `Display` writes it, and as the database stores
/// it: YYYY-MM-DD.
pub open spec fn iso_date_text(year: int, month: int, day: int) -> Seq<char> {
    iso_year_text(year) + "-"@ + fmt_int(month, 2) + "-"@ + fmt_int(day, 2)
}

/// Writes a Gregorian date as YYYY-MM-DD, the text orders and expenses are
/// stored and selected by.
pub fn iso_date_string(date: (i32, u32, u32)) -> (s: String)
    ensures
        s@ == iso_date_text(date.0 as int, date.1 as int, date.2 as int),
{
    let (year, month, day) = date;
    let mut s = String::new();
    if 0 <= year && year <= 9999 {
        push_int(&mut s, year, 4);
    } else if year < 0 {
        push_int(&mut s, year, 5);
    } else {
        s.append("+");
        push_int(&mut s, year, 0);
    }
    let ghost y = s@;
    s.append("-");
    push_uint(&mut s, month, 2);
    s.append("-");
    push_uint(&mut s, day, 2);
    proof {
        assert(y == iso_year_text(year as int));
        assert(s@ =~= iso_date_text(year as int, month as int, day as int));
    }
    s
}

// ---------------------------------------------------------------------
// Reading a picked date back.
// ---------------------------------------------------------------------

/// What `ParsiDate::parse` with the pattern "%Y/%m/%d" reads from a text:
/// four digits, '/', two digits, '/', two digits, and nothing more, as
/// (year, month, day) before the date check.
pub open spec fn slash_fields(s: Seq<char>) -> Option<(int, int, int)> {
    if s.len() == 10 && s[4] == '/' && s[7] == '/' && (forall|i: int|
        0 <= i < 10 && i != 4 && i != 7 ==> is_digit(#[trigger] s[i])) {
        Some((digits_value(s.subrange(0, 4)), digits_value(s.subrange(5, 7)), digits_value(s.subrange(8, 10))))
    } else {
        None
    }
}

/// `ParsiDate::parse` with "%Y/%m/%d": the date when the text has that
/// shape and names a valid date, else the crate's error. (The byte checks
/// of `parse` and these character checks agree: digits and '/' are ASCII,
/// and no other character has a byte of that kind.)
#[verifier::external_body]
fn parsi_parse_slash(s: &str) -> (r: Result<JalaliDate, DateError>)
    ensures
        r is Ok <==> (slash_fields(s@) matches Some((y, m, d)) && is_valid_date(y, m, d)),
        r is Ok ==> slash_fields(s@) == Some((r->Ok_0.year as int, r->Ok_0.month as int, r->Ok_0.day as int)),
{
    match ParsiDate::parse(s, "%Y/%m/%d") {
        Ok(p) => Ok(JalaliDate { year: p.year(), month: p.month(), day: p.day() }),
        Err(e) => Err(e),
    }
}

/// The date a picked text names, when it is YYYY/MM/DD of a valid date.
pub fn parse_picked_date(text: &str) -> (r: Result<JalaliDate, CalendarError>)
    ensures
        match r {
            Ok(d) => slash_fields(text@) == Some((d.year as int, d.month as int, d.day as int)) && d.valid(),
            Err(e) => e == CalendarError::Unparsable && !(slash_fields(text@) matches Some((y, m, d))
                && is_valid_date(y, m, d)),
        },
{
    match parsi_parse_slash(text) {
        Ok(d) => Ok(d),
        Err(_) => Err(CalendarError::Unparsable),
    }
}

/// How many days the menus list before month `upto + 1` of a year.
pub open spec fn listed_days_before(upto: int) -> int {
    if upto <= 6 {
        31 * upto
    } else {
        186 + 30 * (upto - 6)
    }
}

/// The (month, day) of the `k`-th listed day of a year.
pub open spec fn listed_month_day(k: int) -> (int, int) {
    if k < 186 {
        (k / 31 + 1, k % 31 + 1)
    } else {
        ((k - 186) / 30 + 7, (k - 186) % 30 + 1)
    }
}

/// The (year, month, day) the `idx`-th menu text names.
pub open spec fn menu_entry(current_year: int, idx: int) -> (int, int, int) {
    if idx < 366 {
        (current_year, listed_month_day(idx).0, listed_month_day(idx).1)
    } else {
        (current_year + 1, listed_month_day(idx - 366).0, listed_month_day(idx - 366).1)
    }
}

/// The `k`-th listed day of a year is written from `listed_month_day(k)`.
proof fn lemma_year_strings_entry(year: int, upto: nat)
    requires
        upto <= 12,
    ensures
        year_strings(year, upto).len() == listed_days_before(upto as int),
        forall|k: int| 0 <= k < listed_days_before(upto as int) ==> #[trigger] year_strings(year, upto)[k]
            == slash_date_text(year, listed_month_day(k).0, listed_month_day(k).1, 0),
    decreases upto,
{
    if upto > 0 {
        let u = upto as int;
        lemma_year_strings_entry(year, (upto - 1) as nat);
        let prev = year_strings(year, (upto - 1) as nat);
        let ms = month_strings(year, u);
        let base = listed_days_before(u - 1);
        assert forall|k: int| 0 <= k < listed_days_before(u) implies #[trigger] year_strings(year, upto)[k]
            == slash_date_text(year, listed_month_day(k).0, listed_month_day(k).1, 0) by {
            if k < base {
                assert(year_strings(year, upto)[k] == prev[k]);
            } else {
                let i = k - base;
                assert(year_strings(year, upto)[k] == ms[i]);
                if u <= 6 {
                    assert(k / 31 == u - 1 && k % 31 == i) by (nonlinear_arith)
                        requires
                            k == 31 * (u - 1) + i,
                            0 <= i < 31,
                    ;
                } else {
                    assert((k - 186) / 30 == u - 7 && (k - 186) % 30 == i) by (nonlinear_arith)
                        requires
                            k - 186 == 30 * (u - 7) + i,
                            0 <= i < 30,
                    ;
                }
            }
        }
    }
}

/// The `idx`-th menu text is written from `menu_entry(current_year, idx)`.
pub proof fn lemma_menu_entry_text(current_year: int, idx: int)
    requires
        0 <= idx < 732,
    ensures
        menu_date_strings(current_year)[idx] == slash_date_text(
            menu_entry(current_year, idx).0,
            menu_entry(current_year, idx).1,
            menu_entry(current_year, idx).2,
            0,
        ),
{
    lemma_year_strings_entry(current_year, 12);
    lemma_year_strings_entry(current_year + 1, 12);
    if idx >= 366 {
        assert(menu_date_strings(current_year)[idx] == year_strings(current_year + 1, 12)[idx - 366]);
    }
}

/// The date the `idx`-th text of the order and expense date menu names:
/// the menu's entry when its year has four digits and the entry is a date
/// of the Jalali calendar, else `Unparsable` (as for the 30th of Esfand of
/// a common year).
pub fn menu_date(current_year: i32, idx: usize) -> (r: Result<JalaliDate, CalendarError>)
    requires
        current_year <= i32::MAX - 2,
        idx < 732,
    ensures
        ({
            let (y, m, d) = menu_entry(current_year as int, idx as int);
            match r {
                Ok(date) => 1000 <= y <= 9999 && is_valid_date(y, m, d) && date.year == y && date.month == m
                    && date.day == d,
                Err(e) => e == CalendarError::Unparsable && !(1000 <= y <= 9999 && is_valid_date(y, m, d)),
            }
        }),
{
    let items = generate_dates(current_year);
    proof {
        lemma_menu_date_count(current_year as int);
        lemma_menu_entry_text(current_year as int, idx as int);
        let (y, m, d) = menu_entry(current_year as int, idx as int);
        assert(1 <= m <= 12 && 1 <= d <= 31) by (nonlinear_arith)
            requires
                (m, d) == listed_month_day(if idx < 366 { idx as int } else { idx - 366 }),
                0 <= idx < 732,
        ;
        lemma_menu_text_reads_back(y, m, d);
        assert(items@[idx as int]@ == menu_date_strings(current_year as int)[idx as int]);
    }
    parse_picked_date(items[idx].as_str())
}

/// A menu text year/MM/DD reads back as that date exactly when the year
/// has four digits: the texts of years before 1000 or after 9999, and
/// those of days a month lacks (such as the 30th of Esfand in a common
/// year), cannot be picked.
pub proof fn lemma_menu_text_reads_back(year: int, month: int, day: int)
    requires
        1 <= month <= 12,
        1 <= day <= 31,
    ensures
        slash_fields(slash_date_text(year, month, day, 0)) == if 1000 <= year <= 9999 {
            Some((year, month, day))
        } else {
            None
        },
{
    let t = slash_date_text(year, month, day, 0);
    let ys = fmt_int(year, 0);
    let ms = fmt_int(month, 2);
    let ds = fmt_int(day, 2);
    lemma_zero_pad2(month as nat);
    lemma_zero_pad2(day as nat);
    assert(ms.len() == 2 && ds.len() == 2);
    assert(t == ys + "/"@ + ms + "/"@ + ds);
    reveal_strlit("/");
    reveal_strlit("-");
    if year >= 0 {
        assert(ys == dec(year as nat));
        lemma_dec_length(year as nat);
        lemma_dec_digits(year as nat);
        if 1000 <= year <= 9999 {
            assert(ys.len() == 4);
            assert(t.len() == 10);
            assert(t.subrange(0, 4) =~= ys);
            assert(t.subrange(5, 7) =~= ms);
            assert(t.subrange(8, 10) =~= ds);
            assert(t[4] == '/');
            assert(t[7] == '/');
            assert forall|i: int| 0 <= i < 10 && i != 4 && i != 7 implies is_digit(#[trigger] t[i]) by {
                if i < 4 {
                    assert(t[i] == ys[i]);
                } else if i < 7 {
                    assert(t[i] == ms[i - 5]);
                } else {
                    assert(t[i] == ds[i - 8]);
                }
            }
        } else {
            assert(t.len() != 10);
        }
    } else {
        assert(ys[0] == '-');
        assert(t[0] == '-');
        assert(!is_digit(t[0]));
    }
}

} // verus!
