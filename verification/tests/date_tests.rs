use rust_examples::date::Date;

#[test]
fn add_days() {
    let mut date = Date::new(2013, 10, 24);
    let orig = date.to_string();
    let days = 2;
    date.add_days(days);
    let expected = "2013-10-26".to_string();
    let found = date.to_string();
    assert!(
        expected == found,
        "Adding {} days to {} should return {}, not {}",
        days,
        orig,
        expected,
        found
    );
}

#[test]
fn get_day_of_year() {
    let date = Date::new(2014, 01, 01);
    let expected = 1;
    let found = date.get_day_of_year();
    assert!(
        expected == found,
        "{} must be day number {} of the year, not {}.",
        date.to_string(),
        expected,
        found
    );
    let date = Date::new(2012, 12, 31);
    let expected = 366;
    let found = date.get_day_of_year();
    assert!(
        expected == found,
        "{} must be day number {} of the year, not {}.",
        date.to_string(),
        expected,
        found
    );
}

#[test]
fn is_leap() {
    assert!(!Date::is_leap(1900), "1900 is not a leap year");
    assert!(!Date::is_leap(1901), "1901 is not a leap year");
    assert!(Date::is_leap(2000), "2000 is leap year");
    assert!(Date::is_leap(2004), "2004 is leap year");
}

#[test]
fn is_valid() {
    let mut date = Date::new(2013, 10, 24);
    assert!(date.is_valid(), "2013-10-24 is a valid date");
    date = Date::new(2013, 02, 29);
    assert!(!date.is_valid(), "2013-02-29 isn't a valid date");
    date = Date::new(2012, 02, 29);
    assert!(date.is_valid(), "2012-02-29 isn't a valid date");
}

#[test]
fn date_to_string() {
    let date = Date::new(2013, 10, 24);
    let expected = "2013-10-24";
    let found = date.to_string();
    assert!(expected == found, "{}!={}", expected, found);
}

#[test]
fn month_length() {
    assert!(Date::month_length(2000, 2) == 29, "February 2000 has 29 days");
    assert!(Date::month_length(2001, 2) == 28, "February 2001 has 28 days");
    assert!(Date::month_length(2013, 2) == 28, "February 2013 has 28 days");
    assert!(Date::month_length(2013, 9) == 30, "September 2013 has 30 days");
    assert!(Date::month_length(2013, 10) == 31, "October 2013 has 31 days");
}

#[test]
fn new() {
    let date = Date::new(2013, 10, 24);
    let expected = "2013-10-24".to_string();
    let found = date.to_string();
    assert!(expected == found, "{}!={}", expected, found);
}

#[test]
fn new_from_string() {
    let date = Date::new_from_string("2013-10-24 23:24:34");
    let expected = "2013-10-24".to_string();
    let found = date.to_string();
    assert!(expected == found, "{}!={}", expected, found);
}

#[test]
fn add_days_backwards() {
    let mut date = Date::new(2000, 3, 1);
    date.add_days(-1);
    assert_eq!(date.to_string(), "2000- 2-29");
    date.add_days(-60);
    assert_eq!(date.to_string(), "1999-12-31");
    date.add_days(61);
    assert_eq!(date.to_string(), "2000- 3- 1");
}
