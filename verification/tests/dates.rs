use chrono::Datelike;
use echojournal::dates::{is_date_locked, is_date_locked_on, is_locked_at_age};

fn today() -> Option<i32> {
    Some(chrono::Local::now().date_naive().num_days_from_ce())
}

// 2000-01-01 is day 730120 counting 0001-01-01 as day 1.
const Y2K: i32 = 730120;

#[test]
fn same_day_and_a_week_later_are_open() {
    assert_eq!(is_date_locked_on(Y2K, Some("2000-01-01".to_string()), None), Ok(false));
    assert_eq!(is_date_locked_on(Y2K + 7, Some("2000-01-01".to_string()), None), Ok(false));
}

#[test]
fn eight_days_later_is_locked() {
    assert_eq!(is_date_locked_on(Y2K + 8, Some("2000-01-01".to_string()), None), Ok(true));
}

#[test]
fn future_date_is_locked() {
    assert_eq!(is_date_locked_on(Y2K, Some("2000-01-02".to_string()), None), Ok(true));
}

#[test]
fn first_argument_wins() {
    assert_eq!(is_date_locked_on(Y2K, Some("2000-01-01".to_string()), Some("1990-01-01".to_string())), Ok(false));
    assert_eq!(is_date_locked_on(Y2K, None, Some("1999-12-30".to_string())), Ok(false));
}

#[test]
fn missing_date() {
    assert_eq!(is_date_locked_on(Y2K, None, None), Err("Missing date".to_string()));
    assert_eq!(is_date_locked(today(), None, None), Err("Missing date".to_string()));
}

#[test]
fn invalid_date() {
    assert_eq!(is_date_locked_on(Y2K, Some("01/01/2000".to_string()), None), Err("Invalid date format".to_string()));
    assert_eq!(is_date_locked_on(Y2K, Some("2000-02-30".to_string()), None), Err("Invalid date format".to_string()));
    assert_eq!(is_date_locked(today(), Some("yesterday".to_string()), None), Err("Invalid date format".to_string()));
}

#[test]
fn old_and_future_dates_are_locked_today() {
    assert_eq!(is_date_locked(today(), Some("2000-01-01".to_string()), None), Ok(true));
    assert_eq!(is_date_locked(today(), Some("9999-12-31".to_string()), None), Ok(true));
}

#[test]
fn today_is_open() {
    let date = chrono::Local::now().date_naive().format("%Y-%m-%d").to_string();
    assert_eq!(is_date_locked(today(), Some(date), None), Ok(false));
}

#[test]
fn lock_rule_by_age() {
    assert!(!is_locked_at_age(0));
    assert!(!is_locked_at_age(7));
    assert!(is_locked_at_age(8));
    assert!(is_locked_at_age(-1));
}

#[test]
fn unreadable_clock() {
    assert_eq!(
        is_date_locked(None, Some("2000-01-01".to_string()), None),
        Err("Unable to read today's date".to_string())
    );
    assert_eq!(is_date_locked(None, None, None), Err("Unable to read today's date".to_string()));
}
