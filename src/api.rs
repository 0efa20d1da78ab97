use vstd::prelude::*;
use crate::calendar::{iso_date_days_before, iso_days_before, CalendarDate};
use crate::leaders::LeaderSource;
use crate::text::{int_text, int_to_text, push_text};

verus! {

/// The base of every request.
pub open spec fn api_base() -> Seq<char> {
    "https://api-web.nhle.com/v1"@
}

/// How many days before today the schedule view's window starts.
pub open spec fn scores_lookback() -> nat {
    1
}

/// How many days before today the game menu's window starts, so that finished games of the
/// last days can be picked.
pub open spec fn menu_lookback() -> nat {
    2
}

/// The absolute address of a path of the data source.
pub fn api_url(path: &str) -> (r: String)
    ensures
        r@ == api_base() + "/"@ + path@,
{
    let mut r = String::from_str("https://api-web.nhle.com/v1");
    push_text(&mut r, "/");
    push_text(&mut r, path);
    r
}

/// The path of the current standings.
pub fn standings_path() -> (r: &'static str)
    ensures
        r@ == "standings/now"@,
{
    "standings/now"
}

/// The path of the current leaders of a source.
pub open spec fn leaders_path_of(s: LeaderSource) -> Seq<char> {
    match s {
        LeaderSource::Skaters => "skater-stats-leaders/current"@,
        LeaderSource::Goalies => "goalie-stats-leaders/current"@,
    }
}

/// The path of the current leaders of a source.
pub fn leaders_path(s: LeaderSource) -> (r: &'static str)
    ensures
        r@ == leaders_path_of(s),
{
    match s {
        LeaderSource::Skaters => "skater-stats-leaders/current",
        LeaderSource::Goalies => "goalie-stats-leaders/current",
    }
}

/// The path of a game's detail.
pub fn game_path(game_id: i64) -> (r: String)
    ensures
        r@ == "gamecenter/"@ + int_text(game_id as int) + "/landing"@,
{
    let mut r = String::from_str("gamecenter/");
    push_text(&mut r, int_to_text(game_id).as_str());
    push_text(&mut r, "/landing");
    r
}

/// The path of a player's page.
pub fn player_path(player_id: i64) -> (r: String)
    ensures
        r@ == "player/"@ + int_text(player_id as int) + "/landing"@,
{
    let mut r = String::from_str("player/");
    push_text(&mut r, int_to_text(player_id).as_str());
    push_text(&mut r, "/landing");
    r
}

/// The path of the schedule window that starts `days_back` days before `today`, where that
/// date can be had.
pub fn schedule_path(today: &CalendarDate, days_back: u32) -> (r: Option<String>)
    ensures
        crate::text::opt_text(r) == match iso_days_before(*today, days_back as int) {
            Some(d) => Some("schedule/"@ + d),
            None => None,
        },
{
    match iso_date_days_before(today, days_back) {
        Some(d) => {
            let mut r = String::from_str("schedule/");
            push_text(&mut r, d.as_str());
            Some(r)
        },
        None => None,
    }
}

/// The path of the schedule view's window: it starts yesterday.
pub fn scores_schedule_path(today: &CalendarDate) -> (r: Option<String>)
    ensures
        crate::text::opt_text(r) == match iso_days_before(*today, scores_lookback() as int) {
            Some(d) => Some("schedule/"@ + d),
            None => None,
        },
{
    schedule_path(today, 1)
}

/// The path of the game menu's window: it starts two days ago.
pub fn menu_schedule_path(today: &CalendarDate) -> (r: Option<String>)
    ensures
        crate::text::opt_text(r) == match iso_days_before(*today, menu_lookback() as int) {
            Some(d) => Some("schedule/"@ + d),
            None => None,
        },
{
    schedule_path(today, 2)
}

} // verus!
