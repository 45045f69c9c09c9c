use chrono::NaiveDate;
use money_man::date::Date;

#[test]
fn date_of_a_day_that_exists() {
    let d = Date::from_ymd(2024, 3, 15).unwrap();
    assert_eq!((d.year(), d.month(), d.day()), (2024, 3, 15));
}

#[test]
fn date_leap_years() {
    assert!(Date::from_ymd(2024, 2, 29).is_some());
    assert!(Date::from_ymd(2023, 2, 29).is_none());
    assert!(Date::from_ymd(1900, 2, 29).is_none());
    assert!(Date::from_ymd(2000, 2, 29).is_some());
    assert!(Date::from_ymd(0, 2, 29).is_some());
    assert!(Date::from_ymd(-4, 2, 29).is_some());
    assert!(Date::from_ymd(-1, 2, 29).is_none());
}

#[test]
fn date_days_that_do_not_exist() {
    assert!(Date::from_ymd(2023, 4, 31).is_none());
    assert!(Date::from_ymd(2023, 0, 1).is_none());
    assert!(Date::from_ymd(2023, 13, 1).is_none());
    assert!(Date::from_ymd(2023, 1, 0).is_none());
    assert!(Date::from_ymd(2023, 1, 32).is_none());
    assert!(Date::from_ymd(2023, 12, 31).is_some());
    assert!(Date::from_ymd(2023, u32::MAX, u32::MAX).is_none());
}

#[test]
fn date_years_at_the_bounds() {
    assert!(Date::from_ymd(262142, 12, 31).is_some());
    assert!(Date::from_ymd(262143, 1, 1).is_none());
    assert!(Date::from_ymd(-262143, 1, 1).is_some());
    assert!(Date::from_ymd(-262144, 12, 31).is_none());
    assert!(Date::from_ymd(i32::MAX, 1, 1).is_none());
    assert!(Date::from_ymd(i32::MIN, 1, 1).is_none());
}

#[test]
fn date_is_shown_as_year_month_day() {
    assert_eq!(Date::from_ymd(2024, 3, 15).unwrap().to_string(), "2024-03-15");
    assert_eq!(Date::from_ymd(7, 1, 2).unwrap().to_string(), "0007-01-02");
    assert_eq!(Date::from_ymd(0, 12, 31).unwrap().to_string(), "0000-12-31");
    assert_eq!(Date::from_ymd(9999, 12, 31).unwrap().to_string(), "9999-12-31");
}

#[test]
fn date_is_shown_with_a_sign_outside_four_digits() {
    assert_eq!(Date::from_ymd(-1, 1, 1).unwrap().to_string(), "-0001-01-01");
    assert_eq!(Date::from_ymd(-9999, 1, 1).unwrap().to_string(), "-9999-01-01");
    assert_eq!(Date::from_ymd(-10000, 1, 1).unwrap().to_string(), "-10000-01-01");
    assert_eq!(Date::from_ymd(10000, 12, 31).unwrap().to_string(), "+10000-12-31");
    assert_eq!(Date::from_ymd(262142, 12, 31).unwrap().to_string(), "+262142-12-31");
}

#[test]
fn date_is_shown_as_chrono_shows_it() {
    for (y, m, d) in [
        (2024, 3, 15),
        (1, 1, 1),
        (0, 2, 29),
        (9999, 12, 31),
        (10000, 1, 1),
        (-1, 6, 30),
        (-9999, 7, 4),
        (-10000, 7, 4),
        (262142, 12, 31),
        (-262143, 1, 1),
    ] {
        let ours = Date::from_ymd(y, m, d).unwrap().to_string();
        let theirs = NaiveDate::from_ymd_opt(y, m, d).unwrap().to_string();
        assert_eq!(ours, theirs);
    }
}

#[test]
fn date_order_is_the_order_of_the_calendar() {
    let a = Date::from_ymd(2023, 12, 31).unwrap();
    let b = Date::from_ymd(2024, 1, 1).unwrap();
    let c = Date::from_ymd(2024, 1, 2).unwrap();
    let d = Date::from_ymd(2024, 2, 1).unwrap();
    assert!(a.before(&b) && b.before(&c) && c.before(&d) && a.before(&d));
    assert!(!b.before(&a) && !b.before(&b));
    assert!(a < b && b < c && c < d);
    assert!(b.same_day(&Date::from_ymd(2024, 1, 1).unwrap()));
    assert!(!b.same_day(&c));
    assert_eq!(b, Date::from_ymd(2024, 1, 1).unwrap());
}

#[test]
fn date_read_from_ten_characters() {
    let v: Vec<char> = "xx2024-03-15yy".chars().collect();
    let d = Date::read_iso(&v, 2).unwrap();
    assert_eq!((d.year(), d.month(), d.day()), (2024, 3, 15));
    assert!(Date::has_iso_shape(&v, 2));
    assert!(!Date::has_iso_shape(&v, 1));
    assert!(Date::read_iso(&v, 1).is_none());
    let bad: Vec<char> = "2024-02-30".chars().collect();
    assert!(Date::has_iso_shape(&bad, 0));
    assert!(Date::read_iso(&bad, 0).is_none());
    let slashes: Vec<char> = "2024/03/15".chars().collect();
    assert!(!Date::has_iso_shape(&slashes, 0));
}

#[test]
fn date_read_from_a_statement() {
    let d = Date::read_statement_date("03/15/2024").unwrap();
    assert_eq!((d.year(), d.month(), d.day()), (2024, 3, 15));
    let e = Date::read_statement_date("3/5/2024").unwrap();
    assert_eq!((e.year(), e.month(), e.day()), (2024, 3, 5));
    assert!(Date::read_statement_date("02/30/2024").is_none());
    assert!(Date::read_statement_date("2024-03-15").is_none());
    assert!(Date::read_statement_date("03/15/2024 ").is_none());
    assert!(Date::read_statement_date("03/15").is_none());
    assert!(Date::read_statement_date("").is_none());
    assert!(Date::read_statement_date("é/15/2024").is_none());
}

#[test]
fn date_read_from_a_statement_as_chrono_reads_it() {
    for text in [
        "03/15/2024", "3/15/2024", "03/5/24", " 3/ 5/2024", "12/31/9999", "12/31/+10000", "1/1/-1",
        "13/01/2024", "00/10/2024", "02/29/2023", "02/29/2024", "2/29/1900", "a/b/c", "1/2/3/4", "//",
        "99999999999999999999/1/1", "1/1/99999999999999999999", "1/1/262143", "1/1/262142",
    ] {
        let ours = Date::read_statement_date(text).map(|d| (d.year(), d.month(), d.day()));
        let theirs = NaiveDate::parse_from_str(text, "%m/%d/%Y").ok();
        assert_eq!(ours.is_some(), theirs.is_some(), "{:?}", text);
        if let (Some(ours), Some(theirs)) = (ours, theirs) {
            assert_eq!(Date::from_ymd(ours.0, ours.1, ours.2).unwrap().to_string(), theirs.to_string());
        }
    }
}

#[test]
fn date_from_what_was_read() {
    assert!(Date::from_parts(None).is_none());
    assert!(Date::from_parts(Some((2023, 2, 29))).is_none());
    let d = Date::from_parts(Some((2024, 2, 29))).unwrap();
    assert_eq!((d.year(), d.month(), d.day()), (2024, 2, 29));
}

fn days_in(year: i32, month: u32) -> u32 {
    let leap = year.rem_euclid(4) == 0 && (year.rem_euclid(100) != 0 || year.rem_euclid(400) == 0);
    match month {
        2 => {
            if leap {
                29
            } else {
                28
            }
        }
        4 | 6 | 9 | 11 => 30,
        _ => 31,
    }
}

#[test]
fn date_exists_where_the_calendar_has_the_day() {
    for year in -850..=2450 {
        for month in 0..=13u32 {
            for day in [0u32, 1, 2, 27, 28, 29, 30, 31, 32] {
                let expected = (1..=12).contains(&month) && day >= 1 && day <= days_in(year, month);
                assert_eq!(Date::from_ymd(year, month, day).is_some(), expected, "{year}-{month}-{day}");
            }
        }
    }
}

#[test]
fn date_is_read_as_chrono_reads_it() {
    for year in [0, 1, 100, 400, 1900, 1999, 2000, 2023, 2024, 9999] {
        for month in 0..=99u32 {
            for day in 0..=99u32 {
                let text = format!("{:04}-{:02}-{:02}", year, month, day);
                let v: Vec<char> = text.chars().collect();
                let ours = Date::read_iso(&v, 0).map(|d| (d.year(), d.month(), d.day()));
                let theirs = NaiveDate::parse_from_str(&text, "%Y-%m-%d").ok();
                assert_eq!(ours.is_some(), theirs.is_some(), "{}", text);
                if let Some(date) = theirs {
                    assert_eq!(ours.unwrap(), (year, month, day));
                    assert_eq!(date.to_string(), text);
                }
            }
        }
    }
}
