use chrono::Datelike;
use card_ledger::calendar::{
    display_date, from_gregorian, gregorian_date_exists, month_bounds_gregorian, parse_picked_date,
    iso_date_string, menu_date, order_listing_date, parse_stored_date, stored_order_date, to_gregorian,
    current_month_tuple, date_menu, has_previous_month, month_range, english_month_name, generate_dates,
    generate_dates_for_current_and_next_year, picker_date_string, picker_date_strings,
    prev_month_tuple, previous_month, CalendarError, DateFilter, JalaliDate,
};
use card_ledger::text::{decimal_string, push_int};

fn d(year: i32, month: u32, day: u32) -> JalaliDate {
    JalaliDate { year, month, day }
}

#[test]
fn two_years_of_valid_dates() {
    let dates = generate_dates_for_current_and_next_year(1403);
    // 1403 is a leap year (366 days), 1404 is not (365 days).
    assert_eq!(dates.len(), 366 + 365);
    assert_eq!(dates[0], d(1403, 1, 1));
    assert_eq!(dates[30], d(1403, 1, 31));
    assert_eq!(dates[31], d(1403, 2, 1));
    assert_eq!(dates[365], d(1403, 12, 30));
    assert_eq!(dates[366], d(1404, 1, 1));
    assert_eq!(*dates.last().unwrap(), d(1404, 12, 29));
    assert!(!dates.contains(&d(1404, 12, 30)));
    assert!(!dates.contains(&d(1403, 7, 31)));
    for w in dates.windows(2) {
        assert!((w[0].year, w[0].month, w[0].day) < (w[1].year, w[1].month, w[1].day));
    }
}

#[test]
fn dates_outside_the_supported_years_are_left_out() {
    assert_eq!(generate_dates_for_current_and_next_year(9999).len(), 365);
    assert_eq!(generate_dates_for_current_and_next_year(-1).len(), 0);
    assert_eq!(generate_dates_for_current_and_next_year(0).len(), 366);
}

#[test]
fn menu_dates_list() {
    let dates = generate_dates(1403);
    assert_eq!(dates.len(), 732);
    assert_eq!(dates[0], "1403/01/01");
    assert_eq!(dates[185], "1403/06/31");
    assert_eq!(dates[186], "1403/07/01");
    assert_eq!(dates[365], "1403/12/30");
    assert_eq!(dates[366], "1404/01/01");
    assert_eq!(dates[731], "1404/12/30");
    assert!(!dates.contains(&"1403/07/31".to_string()));
}

#[test]
fn previous_months() {
    assert_eq!(previous_month(1403, 1), (12, 1402));
    assert_eq!(previous_month(1403, 5), (4, 1403));
    assert_eq!(previous_month(1403, 12), (11, 1403));
}

#[test]
fn filter_menu_texts() {
    let m = date_menu(d(1403, 5, 2)).unwrap();
    assert_eq!(m.last_month_name, "تیر");
    assert_eq!(m.current_month_name, "مرداد");
    assert_eq!(m.options, vec!["Last Month (تیر)", "This Month (مرداد)", "Range", "All"]);
    let f = date_menu(d(1403, 1, 10)).unwrap();
    assert_eq!(f.last_month_name, "اسفند");
    assert_eq!(f.current_month_name, "فروردین");
    assert_eq!(date_menu(d(1, 1, 1)).err(), Some(CalendarError::InvalidDate));
    let _all = DateFilter::All;
    let _range = DateFilter::Range { start: d(1403, 1, 1), end: d(1403, 1, 2) };
}

#[test]
fn picker_dates() {
    assert_eq!(picker_date_string(d(1403, 5, 2)), "1403/05/02");
    assert_eq!(picker_date_string(d(12, 11, 30)), "0012/11/30");
    assert_eq!(
        picker_date_strings(&vec![d(1403, 1, 1), d(1404, 12, 29)]),
        vec!["1403/01/01", "1404/12/29"]
    );
}

#[test]
fn month_periods() {
    assert_eq!(english_month_name(0), "Farvardin");
    assert_eq!(english_month_name(11), "Esfand");
    let (name, start, end) = current_month_tuple(d(1403, 5, 15));
    assert_eq!(name, "Shahrivar");
    assert_eq!(start, d(1403, 5, 1));
    assert_eq!(end, d(1403, 5, 31));
    let (name, start, end) = current_month_tuple(d(1403, 7, 3));
    assert_eq!(name, "Aban");
    assert_eq!((start, end), (d(1403, 7, 1), d(1403, 7, 30)));
    let (name, start, end) = prev_month_tuple(d(1403, 1, 15));
    assert_eq!(name, "Ordibehesht");
    assert_eq!(start, d(1402, 12, 1));
    assert_eq!(end, d(1402, 12, 29));
    let (_, start, end) = prev_month_tuple(d(1400, 1, 31));
    // 1399 is a leap year: Esfand has 30 days.
    assert_eq!((start, end), (d(1399, 12, 1), d(1399, 12, 30)));
}

#[test]
fn previous_month_exists() {
    assert!(has_previous_month(d(1403, 1, 1)));
    assert!(has_previous_month(d(2, 1, 1)));
    assert!(!has_previous_month(d(1, 1, 31)));
    assert!(has_previous_month(d(1, 2, 31)));
}

#[test]
fn month_ranges() {
    assert_eq!(month_range(d(1403, 12, 5)), (d(1403, 12, 1), d(1403, 12, 30)));
    assert_eq!(month_range(d(1404, 12, 29)), (d(1404, 12, 1), d(1404, 12, 29)));
    assert_eq!(month_range(d(1404, 2, 1)), (d(1404, 2, 1), d(1404, 2, 31)));
}

#[test]
fn integer_texts() {
    assert_eq!(decimal_string(0), "0");
    assert_eq!(decimal_string(1_234_567), "1234567");
    assert_eq!(decimal_string(u64::MAX), u64::MAX.to_string());
    let mut s = String::from("x");
    push_int(&mut s, -5, 4);
    assert_eq!(s, "x-005");
    let mut s = String::new();
    push_int(&mut s, 7, 2);
    assert_eq!(s, "07");
    let mut s = String::new();
    push_int(&mut s, 12345, 2);
    assert_eq!(s, "12345");
    let mut s = String::new();
    push_int(&mut s, i32::MIN, 0);
    assert_eq!(s, i32::MIN.to_string());
    assert_eq!(format!("{:04}", -5), "-005");
}

#[test]
fn calendar_conversions() {
    assert_eq!(to_gregorian(d(1403, 1, 1)), Ok((2024, 3, 20)));
    assert_eq!(to_gregorian(d(1403, 5, 31)), Ok((2024, 8, 21)));
    assert_eq!(from_gregorian(2024, 3, 20), Ok(d(1403, 1, 1)));
    assert_eq!(from_gregorian(2025, 3, 20), Ok(d(1403, 12, 30)));
    assert_eq!(from_gregorian(2023, 2, 29), Err(CalendarError::InvalidDate));
    assert_eq!(from_gregorian(600, 1, 1), Err(CalendarError::GregorianConversion));
    assert_eq!(month_bounds_gregorian(d(1403, 5, 10)), Ok(((2024, 7, 22), (2024, 8, 21))));
}

#[test]
fn gregorian_dates_that_exist() {
    assert!(gregorian_date_exists(2024, 2, 29));
    assert!(!gregorian_date_exists(2023, 2, 29));
    assert!(gregorian_date_exists(2000, 2, 29));
    assert!(!gregorian_date_exists(1900, 2, 29));
    assert!(!gregorian_date_exists(2024, 4, 31));
    assert!(!gregorian_date_exists(2024, 13, 1));
    assert!(gregorian_date_exists(-262143, 1, 1));
    assert!(!gregorian_date_exists(262143, 1, 1));
}

#[test]
fn picked_dates_read_back() {
    assert_eq!(parse_picked_date("1403/05/02"), Ok(d(1403, 5, 2)));
    assert_eq!(parse_picked_date("1403/12/30"), Ok(d(1403, 12, 30)));
    assert_eq!(parse_picked_date("1404/12/30"), Err(CalendarError::Unparsable));
    assert_eq!(parse_picked_date("12/01/01"), Err(CalendarError::Unparsable));
    assert_eq!(parse_picked_date("1403-05-02"), Err(CalendarError::Unparsable));
    assert_eq!(menu_date(1404, 0), Ok(d(1404, 1, 1)));
    assert_eq!(menu_date(1404, 365), Err(CalendarError::Unparsable));
    assert_eq!(menu_date(1404, 730), Ok(d(1405, 12, 29)));
    assert_eq!(menu_date(1404, 731), Err(CalendarError::Unparsable));
    assert_eq!(menu_date(1403, 365), Ok(d(1403, 12, 30)));
}

#[test]
fn menu_dates_follow_the_listed_days() {
    assert_eq!(menu_date(1404, 30), Ok(d(1404, 1, 31)));
    assert_eq!(menu_date(1404, 31), Ok(d(1404, 2, 1)));
    assert_eq!(menu_date(1404, 185), Ok(d(1404, 6, 31)));
    assert_eq!(menu_date(1404, 186), Ok(d(1404, 7, 1)));
    assert_eq!(menu_date(1404, 366), Ok(d(1405, 1, 1)));
    assert_eq!(menu_date(999, 0), Err(CalendarError::Unparsable));
    assert_eq!(menu_date(9999, 366), Err(CalendarError::Unparsable));
    let items = generate_dates(1404);
    assert_eq!(items.len(), 732);
    assert_eq!(items[186], "1404/07/01");
}

#[test]
fn listing_dates() {
    assert_eq!(display_date(d(1403, 5, 2)), "1403/05/02");
    assert_eq!(display_date(d(12, 1, 1)), "12/01/01");
}

#[test]
fn one() {
    let now = chrono::Local::now().date_naive();
    let today = from_gregorian(now.year(), now.month(), now.day()).unwrap();
    let dates = generate_dates_for_current_and_next_year(today.year);
    assert!(dates.len() == 730 || dates.len() == 731);
    let _texts = picker_date_strings(&dates);
    let g = to_gregorian(today).unwrap();
    assert_eq!(iso_date_string(g), now.to_string());
    let (first, last) = month_range(today);
    assert_eq!((first.day, last.month), (1, today.month));
    let _ = (display_date(first), display_date(last));
}

#[test]
fn stored_dates_read_back() {
    assert_eq!(parse_stored_date("2024-07-23"), Some((2024, 7, 23)));
    assert_eq!(parse_stored_date("2024-7-3"), Some((2024, 7, 3)));
    assert_eq!(parse_stored_date("2023-02-29"), None);
    assert_eq!(parse_stored_date("23/07/2024"), None);
    assert_eq!(parse_stored_date(""), None);
    assert_eq!(stored_order_date("2024-07-23"), (2024, 7, 23));
    assert_eq!(stored_order_date("garbage"), (1970, 1, 1));
    assert_eq!(order_listing_date(None), (1970, 1, 1));
    assert_eq!(order_listing_date(Some((2001, 2, 3))), (2001, 2, 3));
}

#[test]
fn iso_dates_match_chrono() {
    for (y, m, dd) in [(2024, 7, 3), (5, 1, 9), (0, 12, 31), (9999, 12, 31), (10000, 1, 1), (-5, 3, 4), (-262143, 1, 1), (262142, 12, 31)] {
        let n = chrono::NaiveDate::from_ymd_opt(y, m, dd).unwrap();
        assert_eq!(iso_date_string((y, m, dd)), n.to_string());
    }
    assert_eq!(iso_date_string((2024, 7, 3)), "2024-07-03");
    assert_eq!(iso_date_string((5, 1, 9)), "0005-01-09");
    assert_eq!(iso_date_string((-5, 3, 4)), "-0005-03-04");
    assert_eq!(iso_date_string((10000, 1, 1)), "+10000-01-01");
    assert_eq!(parse_stored_date(&iso_date_string((5, 1, 9))), Some((5, 1, 9)));
}
