use crate::structures::Date;
use chrono::{Datelike, NaiveDate};
use vstd::prelude::*;

verus! {

/// A day of the week.
#[derive(Clone, Copy, Debug, PartialEq, Eq, Structural)]
pub enum Weekday {
    Mon,
    Tue,
    Wed,
    Thu,
    Fri,
    Sat,
    Sun,
}

/// A text that is no date.
#[derive(Debug)]
pub struct InvalidDate {
    pub text: String,
}

/// Declares chrono's `ParseError`, which its parsers return for a text that
/// they do not read. Nothing is known of what it holds.
#[verifier::external_type_specification]
#[verifier::external_body]
pub struct ExParseError(chrono::ParseError);

/// The day of the week of day `days`, as chrono tells it; `None` for a day
/// that chrono has no date for.
pub uninterp spec fn weekday_of(days: i32) -> Option<Weekday>;

/// The number of the day that `text` names as year, month and day parted by
/// hyphens, as chrono reads it; `None` where chrono reads no date.
pub uninterp spec fn day_of_text(text: Seq<char>) -> Option<i32>;

/// The number of the day that `text` names in the form that `format`
/// describes, as chrono reads it; `None` where chrono reads no date.
pub uninterp spec fn day_of_format(text: Seq<char>, format: Seq<char>) -> Option<i32>;

/// Calls `Datelike::weekday` on the date that
/// `NaiveDate::from_num_days_from_ce_opt` makes of `days`. The result is a
/// function of `days` alone and goes by the name `weekday_of`; nothing more
/// is claimed of it.
#[verifier::external_body]
fn weekday_from_chrono(days: i32) -> (weekday: Option<Weekday>)
    ensures
        weekday == weekday_of(days),
{
    match NaiveDate::from_num_days_from_ce_opt(days) {
        None => None,
        Some(date) => Some(
            match date.weekday() {
                chrono::Weekday::Mon => Weekday::Mon,
                chrono::Weekday::Tue => Weekday::Tue,
                chrono::Weekday::Wed => Weekday::Wed,
                chrono::Weekday::Thu => Weekday::Thu,
                chrono::Weekday::Fri => Weekday::Fri,
                chrono::Weekday::Sat => Weekday::Sat,
                chrono::Weekday::Sun => Weekday::Sun,
            },
        ),
    }
}

/// Calls `NaiveDate::from_str`, through `str::parse`, and counts the days of
/// the date with `Datelike::num_days_from_ce`. Whether a date is read, and
/// which, depends on `text` alone and goes by the name `day_of_text`.
#[verifier::external_body]
fn day_from_chrono(text: &str) -> (days: Result<i32, chrono::ParseError>)
    ensures
        days.ok() == day_of_text(text@),
{
    match text.parse::<NaiveDate>() {
        Ok(date) => Ok(date.num_days_from_ce()),
        Err(e) => Err(e),
    }
}

/// Calls `NaiveDate::parse_from_str` and counts the days of the date with
/// `Datelike::num_days_from_ce`. Whether a date is read, and which, depends
/// on `text` and `format` alone and goes by the name `day_of_format`.
#[verifier::external_body]
fn day_from_chrono_in(text: &str, format: &str) -> (days: Result<i32, chrono::ParseError>)
    ensures
        days.ok() == day_of_format(text@, format@),
{
    match NaiveDate::parse_from_str(text, format) {
        Ok(date) => Ok(date.num_days_from_ce()),
        Err(e) => Err(e),
    }
}

/// The date that a read day number stands for.
pub open spec fn dated(days: Option<i32>) -> Option<Date> {
    match days {
        Some(days) => Some(Date { days }),
        None => None,
    }
}

/// The form in which feeds write dates: year, month and day, eight digits.
pub open spec fn feed_format() -> Seq<char> {
    "%Y%m%d"@
}

impl Date {
    /// The day of the week, `None` for a day so far off that it has none.
    pub fn weekday(self) -> (weekday: Option<Weekday>)
        ensures
            weekday == weekday_of(self.days),
    {
        weekday_from_chrono(self.days)
    }

    /// Reads a date written as year, month and day, parted by hyphens.
    pub fn parse(text: &str) -> (date: Result<Date, InvalidDate>)
        ensures
            date.ok() == dated(day_of_text(text@)),
            date matches Err(e) ==> e.text@ == text@,
    {
        match day_from_chrono(text) {
            Ok(days) => Ok(Date { days }),
            Err(_) => Err(InvalidDate { text: text.to_owned() }),
        }
    }

    /// Whole days from `earlier` to `self`, negative where `self` is the
    /// earlier one.
    pub fn days_since(self, earlier: Date) -> (days: i64)
        ensures
            days == self.days - earlier.days,
    {
        self.days as i64 - earlier.days as i64
    }
}

/// Reads a date as feeds write it: year, month and day, eight digits.
pub fn deserialize_date(text: &str) -> (date: Result<Date, InvalidDate>)
    ensures
        date.ok() == dated(day_of_format(text@, feed_format())),
        date matches Err(e) ==> e.text@ == text@,
{
    match day_from_chrono_in(text, "%Y%m%d") {
        Ok(days) => Ok(Date { days }),
        Err(_) => Err(InvalidDate { text: text.to_owned() }),
    }
}

} // verus!
