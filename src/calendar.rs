use vstd::prelude::*;

use chrono::{NaiveDate, NaiveDateTime, NaiveTime};

use crate::duration::{seconds_of, SECONDS_PER_DAY};

verus! {

/// The instant, in seconds since 1970-01-01 00:00:00, that a text of the form
/// `YYYY-MM-DD HH:MM:SS` names.
pub uninterp spec fn date_time_of(s: Seq<char>) -> Option<int>;

/// The instant, in seconds since 1970-01-01 00:00:00, of midnight on the day that a text
/// of the form `YYYY-MM-DD` names.
pub uninterp spec fn date_of(s: Seq<char>) -> Option<int>;

/// The text of an instant, given in seconds since 1970-01-01 00:00:00, in the layout
/// that a chrono format string gives.
pub uninterp spec fn formatted_of(t: int, layout: Seq<char>) -> Option<Seq<char>>;

/// Relies on chrono's `NaiveDateTime::parse_from_str` with `%Y-%m-%d %H:%M:%S`, and on
/// `NaiveDateTime::timestamp`: the result depends on the text alone.
#[verifier::external_body]
fn parse_date_time(s: &str) -> (r: Option<i64>)
    ensures
        seconds_of(r) == date_time_of(s@),
{
    NaiveDateTime::parse_from_str(s, "%Y-%m-%d %H:%M:%S").ok().map(|d| d.and_utc().timestamp())
}

/// Relies on chrono's `NaiveDate::parse_from_str` with `%Y-%m-%d`, taken at midnight: the
/// result depends on the text alone.
#[verifier::external_body]
fn parse_date(s: &str) -> (r: Option<i64>)
    ensures
        seconds_of(r) == date_of(s@),
{
    NaiveDate::parse_from_str(s, "%Y-%m-%d").ok().map(|d| d.and_time(NaiveTime::MIN).and_utc().timestamp())
}

/// Relies on chrono's `DateTime::from_timestamp` and `format`: `None` when the instant is
/// out of chrono's range, else the text, which depends on the instant and layout alone.
/// Only the two layouts used here are admitted: each holds plain date and hour fields, so
/// formatting cannot fail.
#[verifier::external_body]
fn format_instant(t: i64, layout: &str) -> (r: Option<String>)
    requires
        layout@ == "%Y-%m-%d"@ || layout@ == "%Y-%m-%d %H"@,
    ensures
        match r {
            Some(s) => formatted_of(t as int, layout@) == Some(s@),
            None => formatted_of(t as int, layout@) is None,
        },
{
    chrono::DateTime::from_timestamp(t, 0).map(|d| d.naive_utc().format(layout).to_string())
}

/// The instant that a start text names: a date and time, or else a date at midnight.
pub open spec fn start_of(s: Seq<char>) -> Option<int> {
    match date_time_of(s) {
        Some(t) => Some(t),
        None => date_of(s),
    }
}

/// The instant that a start text names, in seconds since 1970-01-01 00:00:00: the text
/// is read as `YYYY-MM-DD HH:MM:SS`, or else as `YYYY-MM-DD` at midnight.
pub fn parse_start(s: &str) -> (r: Option<i64>)
    ensures
        seconds_of(r) == start_of(s@),
{
    match parse_date_time(s) {
        Some(t) => Some(t),
        None => parse_date(s),
    }
}

/// The layout in which a start instant is written: the date alone at midnight (a whole
/// number of days since the epoch), else the date and the hour.
pub open spec fn start_layout(t: int) -> Seq<char> {
    if t % (SECONDS_PER_DAY as int) == 0 {
        "%Y-%m-%d"@
    } else {
        "%Y-%m-%d %H"@
    }
}

/// The text of a start instant: the date alone when it is at midnight, else the date and
/// the hour. `None` when the instant is out of the calendar's range.
pub fn start_label(t: i64) -> (r: Option<String>)
    ensures
        match r {
            Some(s) => formatted_of(t as int, start_layout(t as int)) == Some(s@),
            None => formatted_of(t as int, start_layout(t as int)) is None,
        },
{
    if t % SECONDS_PER_DAY == 0 {
        format_instant(t, "%Y-%m-%d")
    } else {
        format_instant(t, "%Y-%m-%d %H")
    }
}

} // verus!
