use habit_tracker::date::{Date, MAX_YEAR, MIN_YEAR};

#[test]
fn a_date_is_a_day_of_the_calendar() {
    let date = Date::from_ymd(2020, 4, 11).unwrap();
    assert_eq!((date.year(), date.month(), date.day()), (2020, 4, 11));
    assert!(Date::from_ymd(2020, 2, 29).is_some());
    assert!(Date::from_ymd(2021, 2, 29).is_none());
    assert!(Date::from_ymd(1900, 2, 29).is_none());
    assert!(Date::from_ymd(2000, 2, 29).is_some());
    assert!(Date::from_ymd(2020, 2, 30).is_none());
    assert!(Date::from_ymd(2020, 4, 31).is_none());
    assert!(Date::from_ymd(2020, 4, 30).is_some());
    assert!(Date::from_ymd(2020, 12, 31).is_some());
    assert!(Date::from_ymd(2020, 13, 1).is_none());
    assert!(Date::from_ymd(2020, 0, 1).is_none());
    assert!(Date::from_ymd(2020, 1, 0).is_none());
    assert!(Date::from_ymd(2020, 1, 32).is_none());
}

#[test]
fn years_before_the_common_era_have_leap_days_too() {
    assert!(Date::from_ymd(0, 2, 29).is_some());
    assert!(Date::from_ymd(-4, 2, 29).is_some());
    assert!(Date::from_ymd(-1, 2, 29).is_none());
    assert!(Date::from_ymd(-100, 2, 29).is_none());
    assert!(Date::from_ymd(-400, 2, 29).is_some());
}

#[test]
fn dates_end_where_the_years_end() {
    assert_eq!(MIN_YEAR, -262_143);
    assert_eq!(MAX_YEAR, 262_142);
    assert!(Date::from_ymd(MAX_YEAR, 12, 31).is_some());
    assert!(Date::from_ymd(MAX_YEAR + 1, 1, 1).is_none());
    assert!(Date::from_ymd(MIN_YEAR, 1, 1).is_some());
    assert!(Date::from_ymd(MIN_YEAR - 1, 12, 31).is_none());
    assert!(Date::from_ymd(i32::MAX, 1, 1).is_none());
    assert!(Date::from_ymd(i32::MIN, 1, 1).is_none());
}

#[test]
fn every_day_that_chrono_knows_is_a_date() {
    let mut days = chrono::NaiveDate::from_ymd_opt(1999, 12, 25).unwrap().iter_days();
    for _ in 0..1500 {
        let known = days.next().unwrap();
        let (year, month, day) = (
            chrono::Datelike::year(&known),
            chrono::Datelike::month(&known),
            chrono::Datelike::day(&known),
        );
        let date = Date::from_ymd(year, month, day).unwrap();
        assert_eq!((date.year(), date.month(), date.day()), (year, month, day));
    }
}

#[test]
fn dates_are_ordered_by_year_then_month_then_day() {
    let day = |y, m, d| Date::from_ymd(y, m, d).unwrap();
    assert!(day(2020, 4, 11).precedes(&day(2020, 4, 12)));
    assert!(day(2020, 4, 30).precedes(&day(2020, 5, 1)));
    assert!(day(2019, 12, 31).precedes(&day(2020, 1, 1)));
    assert!(day(-1, 12, 31).precedes(&day(0, 1, 1)));
    assert!(!day(2020, 4, 11).precedes(&day(2020, 4, 11)));
    assert!(!day(2020, 5, 1).precedes(&day(2020, 4, 30)));
    assert!(day(2020, 4, 11).on_or_before(&day(2020, 4, 11)));
    assert!(day(2020, 4, 11).on_or_before(&day(2021, 1, 1)));
    assert!(!day(2021, 1, 1).on_or_before(&day(2020, 12, 31)));
    assert!(day(2020, 4, 11).same_day(&day(2020, 4, 11)));
    assert!(!day(2020, 4, 11).same_day(&day(2020, 4, 12)));
    assert_eq!(day(2020, 4, 11), day(2020, 4, 11));
    assert_ne!(day(2020, 4, 11), day(2021, 4, 11));
}

#[test]
fn today_is_the_day_of_the_clock_in_utc() {
    let before = chrono::Utc::now().date_naive();
    let today = Date::today();
    let after = chrono::Utc::now().date_naive();
    let read = chrono::NaiveDate::from_ymd_opt(today.year(), today.month(), today.day()).unwrap();
    assert!(before <= read && read <= after);
    assert!(today.year() >= 2024);
}
