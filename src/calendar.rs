use vstd::prelude::*;
use chrono::Datelike;
use crate::text::opt_text;

verus! {

/// A calendar date.
#[derive(Clone, Copy, PartialEq, Eq, Structural, Debug)]
pub struct CalendarDate {
    pub year: i32,
    pub month: u32,
    pub day: u32,
}

/// The date as a triple of year, month and day.
pub open spec fn ymd(d: CalendarDate) -> (int, int, int) {
    (d.year as int, d.month as int, d.day as int)
}

/// The date that chrono reads from `text` in the form `%Y-%m-%d`, if any.
pub uninterp spec fn parsed_iso_date(text: Seq<char>) -> Option<(int, int, int)>;

/// What chrono writes for a date with a strftime pattern; none where the triple is no date.
pub uninterp spec fn formatted_date(year: int, month: int, day: int, pattern: Seq<char>) -> Option<Seq<char>>;

/// The date chrono gives `days` days before a date; none where the triple is no date or the
/// result falls out of chrono's range.
pub uninterp spec fn date_days_before(year: int, month: int, day: int, days: int) -> Option<(int, int, int)>;

/// The strftime patterns this library uses: an ISO date, a long day heading, a weekday.
pub open spec fn known_pattern(p: Seq<char>) -> bool {
    p == "%Y-%m-%d"@ || p == "%A, %B %d"@ || p == "%A"@
}

/// Relies on chrono's `NaiveDate::parse_from_str` with the pattern `%Y-%m-%d`, whose result
/// depends on the text alone.
#[verifier::external_body]
pub(crate) fn parse_iso_date(text: &str) -> (r: Option<CalendarDate>)
    ensures
        r is None <==> parsed_iso_date(text@) is None,
        r matches Some(d) ==> parsed_iso_date(text@) == Some(ymd(d)),
{
    match chrono::NaiveDate::parse_from_str(text, "%Y-%m-%d") {
        Ok(d) => Some(CalendarDate { year: d.year(), month: d.month(), day: d.day() }),
        Err(_) => None,
    }
}

/// Relies on chrono's `NaiveDate::from_ymd_opt` and `NaiveDate::format`: the text depends on
/// the date and the pattern alone.  Formatting panics on a malformed pattern, so only the
/// patterns above are admitted.
#[verifier::external_body]
pub(crate) fn format_date(d: &CalendarDate, pattern: &str) -> (r: Option<String>)
    requires
        known_pattern(pattern@),
    ensures
        r is None <==> formatted_date(d.year as int, d.month as int, d.day as int, pattern@) is None,
        r matches Some(s) ==> formatted_date(d.year as int, d.month as int, d.day as int, pattern@)
            == Some(s@),
{
    match chrono::NaiveDate::from_ymd_opt(d.year, d.month, d.day) {
        Some(nd) => Some(nd.format(pattern).to_string()),
        None => None,
    }
}

/// Relies on chrono's `NaiveDate::from_ymd_opt` and `NaiveDate::checked_sub_days`, which
/// depend on their arguments alone.
#[verifier::external_body]
pub(crate) fn days_before(d: &CalendarDate, days: u32) -> (r: Option<CalendarDate>)
    ensures
        r is None <==> date_days_before(d.year as int, d.month as int, d.day as int, days as int) is None,
        r matches Some(e) ==> date_days_before(d.year as int, d.month as int, d.day as int, days as int)
            == Some(ymd(e)),
{
    match chrono::NaiveDate::from_ymd_opt(d.year, d.month, d.day) {
        Some(nd) => match nd.checked_sub_days(chrono::Days::new(days as u64)) {
            Some(e) => Some(CalendarDate { year: e.year(), month: e.month(), day: e.day() }),
            None => None,
        },
        None => None,
    }
}

/// The heading for a date given as `%Y-%m-%d` text: the date written with `pattern`, or the
/// text itself where it is no such date.
pub open spec fn date_heading(text: Seq<char>, pattern: Seq<char>) -> Seq<char> {
    match parsed_iso_date(text) {
        Some(t) => match formatted_date(t.0, t.1, t.2, pattern) {
            Some(s) => s,
            None => text,
        },
        None => text,
    }
}

/// The heading for a date given as `%Y-%m-%d` text: the date written with `pattern`, or the
/// text itself where it does not read as a date.
pub fn heading_for_date(text: &str, pattern: &str) -> (r: String)
    requires
        known_pattern(pattern@),
    ensures
        r@ == date_heading(text@, pattern@),
{
    match parse_iso_date(text) {
        Some(d) => match format_date(&d, pattern) {
            Some(s) => s,
            None => String::from_str(text),
        },
        None => String::from_str(text),
    }
}

/// The date `days` days before `d` in the form `%Y-%m-%d`, where chrono can give it.
pub open spec fn iso_days_before(d: CalendarDate, days: int) -> Option<Seq<char>> {
    match date_days_before(d.year as int, d.month as int, d.day as int, days) {
        Some(e) => formatted_date(e.0, e.1, e.2, "%Y-%m-%d"@),
        None => None,
    }
}

/// The date `days` days before `d` in the form `%Y-%m-%d`, where chrono can give it.
pub fn iso_date_days_before(d: &CalendarDate, days: u32) -> (r: Option<String>)
    ensures
        opt_text(r) == iso_days_before(*d, days as int),
{
    match days_before(d, days) {
        Some(e) => {
            let r = format_date(&e, "%Y-%m-%d");
            assert(ymd(e) == (e.year as int, e.month as int, e.day as int));
            r
        },
        None => None,
    }
}

} // verus!
