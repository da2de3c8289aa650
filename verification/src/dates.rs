//! The edit lock: an entry can be changed only on its day and during the
//! seven days after it.

use vstd::prelude::*;
use chrono::Datelike;

verus! {

/// The day number (days counted in the proleptic Gregorian calendar, with
/// 1 January of year 1 as day 1) of the date that `text` holds in the form
/// `%Y-%m-%d`, or `None` where chrono's parser refuses it.
pub uninterp spec fn iso_date_day_number(text: Seq<char>) -> Option<i32>;

/// Calls `chrono::NaiveDate::parse_from_str(text, "%Y-%m-%d")` and, on
/// success, `Datelike::num_days_from_ce` of the date. The result is named,
/// not described: chrono's parser of this format is not restated here.
#[verifier::external_body]
fn parse_day_number(text: &str) -> (r: Option<i32>)
    ensures
        r == iso_date_day_number(text@),
{
    match chrono::NaiveDate::parse_from_str(text, "%Y-%m-%d") {
        Ok(d) => Some(d.num_days_from_ce()),
        Err(_) => None,
    }
}

/// Whether an entry made `age` days ago (negative for a future date) is
/// locked: it is open from its own day until seven days later.
pub open spec fn locked_at_age(age: int) -> bool {
    age > 7 || age < 0
}

/// The date to check: the first of the two that is given.
pub open spec fn chosen_date(target_date_str: Option<String>, date: Option<String>) -> Option<Seq<char>> {
    match target_date_str {
        Some(s) => Some(s@),
        None => match date {
            Some(s) => Some(s@),
            None => None,
        },
    }
}

/// What the lock check answers on day `today`: an error without a date or
/// with one that does not parse, else whether the date is locked.
pub open spec fn lock_outcome(today: int, chosen: Option<Seq<char>>) -> Result<bool, Seq<char>> {
    match chosen {
        None => Err("Missing date"@),
        Some(s) => match iso_date_day_number(s) {
            None => Err("Invalid date format"@),
            Some(d) => Ok(locked_at_age(today - d)),
        },
    }
}

/// A result with its error message viewed as characters.
pub open spec fn result_view(r: Result<bool, String>) -> Result<bool, Seq<char>> {
    match r {
        Ok(b) => Ok(b),
        Err(e) => Err(e@),
    }
}

/// Whether an entry `age` days old is locked.
pub fn is_locked_at_age(age: i64) -> (b: bool)
    ensures
        b == locked_at_age(age as int),
{
    age > 7 || age < 0
}

/// The lock check as it comes out on the day numbered `today`.
pub fn is_date_locked_on(today: i32, target_date_str: Option<String>, date: Option<String>) -> (r:
    Result<bool, String>)
    ensures
        result_view(r) == lock_outcome(today as int, chosen_date(target_date_str, date)),
{
    let date_str = match target_date_str {
        Some(s) => s,
        None => match date {
            Some(s) => s,
            None => {
                return Err("Missing date".to_owned());
            },
        },
    };
    match parse_day_number(date_str.as_str()) {
        None => Err("Invalid date format".to_owned()),
        Some(d) => {
            let age: i64 = today as i64 - d as i64;
            Ok(is_locked_at_age(age))
        },
    }
}

/// The reply when today's date could not be read.
pub open spec fn no_clock_reply() -> Seq<char> {
    "Unable to read today's date"@
}

/// Whether the entry of the given date (`target_date_str`, else `date`, in
/// the form `YYYY-MM-DD`) can no longer be edited, given today's day number
/// as the machine's clock gave it, or `None` where the clock could not be
/// read.
pub fn is_date_locked(today: Option<i32>, target_date_str: Option<String>, date: Option<String>) -> (r:
    Result<bool, String>)
    ensures
        match today {
            None => result_view(r) == Err::<bool, Seq<char>>(no_clock_reply()),
            Some(t) => result_view(r) == lock_outcome(t as int, chosen_date(target_date_str, date)),
        },
{
    match today {
        None => Err("Unable to read today's date".to_owned()),
        Some(t) => is_date_locked_on(t, target_date_str, date),
    }
}

/// An entry is open on its own day and the seven days after it, and locked
/// before and after that window.
pub proof fn law_lock_window(today: int, day: int)
    ensures
        locked_at_age(today - day) <==> !(day <= today <= day + 7),
{
}

/// Once an entry is locked because it is old, it stays locked on every later
/// day.
pub proof fn law_lock_is_permanent(day: int, today: int, later: int)
    requires
        today <= later,
        today - day > 7,
    ensures
        locked_at_age(later - day),
{
}

} // verus!
