use adverse_events::{parse_yes_no, Date, Time};

#[test]
fn valid_and_invalid_dates() {
    assert!(Date::from_ymd_opt(2020, 2, 29).is_some());
    assert!(Date::from_ymd_opt(2021, 2, 29).is_none());
    assert!(Date::from_ymd_opt(1900, 2, 29).is_none());
    assert!(Date::from_ymd_opt(2000, 2, 29).is_some());
    assert!(Date::from_ymd_opt(2021, 4, 31).is_none());
    assert!(Date::from_ymd_opt(2021, 13, 1).is_none());
    assert!(Date::from_ymd_opt(2021, 1, 0).is_none());
}

#[test]
fn day_numbers_and_weekdays() {
    let d = Date::from_ymd_opt(2021, 1, 5).unwrap();
    assert_eq!(d.day_number(), 738160);
    // 2021-01-05 was a Tuesday
    assert_eq!(d.weekday_from_monday(), 1);
    let first = Date::from_ymd_opt(1, 1, 1).unwrap();
    assert_eq!(first.weekday_from_monday(), 0);
    let a = Date::from_ymd_opt(2021, 2, 10).unwrap();
    assert_eq!(a.day_number() - d.day_number(), 36);
}

#[test]
fn next_and_previous_days() {
    let d = Date::from_ymd_opt(2020, 12, 31).unwrap();
    assert_eq!(d.next_day(), Date::from_ymd_opt(2021, 1, 1).unwrap());
    let f = Date::from_ymd_opt(2020, 2, 28).unwrap();
    assert_eq!(f.next_day(), Date::from_ymd_opt(2020, 2, 29).unwrap());
    let m = Date::from_ymd_opt(2021, 3, 1).unwrap();
    assert_eq!(m.prev_day(), Date::from_ymd_opt(2021, 2, 28).unwrap());
    assert_eq!(m.last_of_month(), Date::from_ymd_opt(2021, 3, 31).unwrap());
}

#[test]
fn parse_iso_dates() {
    assert_eq!(Date::parse_iso("2021-01-05"), Date::from_ymd_opt(2021, 1, 5));
    assert_eq!(Date::parse_iso("1999-12-31"), Date::from_ymd_opt(1999, 12, 31));
    assert!(Date::parse_iso("2021-02-30").is_none());
    assert!(Date::parse_iso("01/05/2021").is_none());
    assert!(Date::parse_iso("").is_none());
}

#[test]
fn times_of_day() {
    let t = Time::from_hms_opt(9, 30, 15).unwrap();
    assert_eq!(t.seconds_from_midnight(), 9 * 3600 + 30 * 60 + 15);
    assert_eq!((t.hour(), t.minute(), t.second()), (9, 30, 15));
    assert!(Time::from_hms_opt(24, 0, 0).is_none());
    assert!(Time::from_hms_opt(9, 0, 0).unwrap().is_before(&t));
}

#[test]
fn parse_spreadsheet_fields() {
    assert_eq!(Date::parse_mdy("01/05/21"), Date::from_ymd_opt(2021, 1, 5));
    assert_eq!(Date::parse_mdy("12/31/99"), Date::from_ymd_opt(1999, 12, 31));
    assert!(Date::parse_mdy("13/01/21").is_none());
    assert!(Date::parse_mdy("2021-01-05").is_none());
    assert_eq!(Time::parse_hhmm("0930"), Time::from_hms_opt(9, 30, 0));
    assert_eq!(Time::parse_hhmm("2359"), Time::from_hms_opt(23, 59, 0));
    assert!(Time::parse_hhmm("2460").is_none());
    assert_eq!(parse_yes_no("Yes").unwrap(), Some(true));
    assert_eq!(parse_yes_no("n").unwrap(), Some(false));
    assert_eq!(parse_yes_no("").unwrap(), None);
    assert!(parse_yes_no("maybe").is_err());
}
