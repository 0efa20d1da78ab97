use nhl_cli::api::{api_url, game_path, leaders_path, menu_schedule_path, scores_schedule_path, standings_path};
use nhl_cli::calendar::{heading_for_date, CalendarDate};
use nhl_cli::decimal::{fixed, parse_decimal, times_hundred, Decimal};
use nhl_cli::leaders::LeaderSource;
use nhl_cli::milestone::chase_lines;
use nhl_cli::ranking::rank_indices;
use nhl_cli::standings::{parse_mode, StandingsMode};
use nhl_cli::text::{centered, distinct_sorted, int_to_text, text_less};

#[test]
fn integers_as_text() {
    assert_eq!(int_to_text(0), "0");
    assert_eq!(int_to_text(-42), "-42");
    assert_eq!(int_to_text(i64::MIN), i64::MIN.to_string());
    assert_eq!(int_to_text(i64::MAX), i64::MAX.to_string());
}

#[test]
fn centring_puts_the_odd_space_right() {
    assert_eq!(centered("ab", 5), format!("{:^5}", "ab"));
    assert_eq!(centered("abc", 8), format!("{:^8}", "abc"));
    assert_eq!(centered("toolong", 3), "toolong");
}

#[test]
fn strings_order_by_characters() {
    assert!(text_less("Eastern", "Western"));
    assert!(!text_less("Western", "Eastern"));
    assert!(text_less("East", "Eastern"));
    assert!(!text_less("same", "same"));
    let v = vec!["b".to_string(), "a".to_string(), "b".to_string(), "c".to_string()];
    assert_eq!(distinct_sorted(&v), vec!["a", "b", "c"]);
}

#[test]
fn ranking_keeps_ties_in_order() {
    let keys = vec![5, 9, 5, 9, 1];
    assert_eq!(rank_indices(&keys, &vec![0, 1, 2, 3, 4]), vec![1, 3, 0, 2, 4]);
    assert_eq!(rank_indices(&keys, &vec![4, 2, 0]), vec![0, 2, 4]);
    assert!(rank_indices(&keys, &vec![]).is_empty());
}

#[test]
fn decimals_read_and_round() {
    assert_eq!(parse_decimal("0.927"), Some(Decimal { negative: false, units: 927, scale: 3 }));
    assert_eq!(parse_decimal("-12"), Some(Decimal { negative: true, units: 12, scale: 0 }));
    assert_eq!(parse_decimal("1."), None);
    assert_eq!(parse_decimal(".5"), None);
    assert_eq!(parse_decimal(""), None);
    assert_eq!(parse_decimal("1e5"), None);
    assert_eq!(parse_decimal("1234567890123456789012345678901"), None);
    let d = |t: &str| parse_decimal(t).unwrap();
    assert_eq!(fixed(d("0.125"), 2), "0.12");
    assert_eq!(fixed(d("0.375"), 2), "0.38");
    assert_eq!(fixed(d("0.1251"), 2), "0.13");
    assert_eq!(fixed(d("2"), 3), "2.000");
    assert_eq!(fixed(d("-0.001"), 2), "-0.00");
    assert_eq!(fixed(d("0.00000000000000000000000000001"), 2), "0.00");
    assert_eq!(fixed(d("9.999"), 2), "10.00");
    assert_eq!(fixed(times_hundred(d("0.5")), 2), "50.00");
}

#[test]
fn request_paths() {
    assert_eq!(api_url(standings_path()), "https://api-web.nhle.com/v1/standings/now");
    assert_eq!(leaders_path(LeaderSource::Goalies), "goalie-stats-leaders/current");
    assert_eq!(leaders_path(LeaderSource::Skaters), "skater-stats-leaders/current");
    assert_eq!(game_path(2024020001), "gamecenter/2024020001/landing");
    let today = CalendarDate { year: 2024, month: 3, day: 1 };
    assert_eq!(scores_schedule_path(&today), Some("schedule/2024-02-29".to_string()));
    assert_eq!(menu_schedule_path(&today), Some("schedule/2024-02-28".to_string()));
    let nowhere = CalendarDate { year: 2023, month: 2, day: 30 };
    assert_eq!(scores_schedule_path(&nowhere), None);
}

#[test]
fn dates_through_chrono() {
    assert_eq!(heading_for_date("2024-13-08", "%A"), "2024-13-08");
    let new_year = CalendarDate { year: 2025, month: 1, day: 1 };
    assert_eq!(scores_schedule_path(&new_year), Some("schedule/2024-12-31".to_string()));
    assert_eq!(heading_for_date("2024-10-08", "%A, %B %d"), "Tuesday, October 08");
    assert_eq!(heading_for_date("2024-10-08", "%A"), "Tuesday");
    assert_eq!(heading_for_date("Unknown Date", "%A"), "Unknown Date");
}

#[test]
fn case_mapping() {
    assert_eq!(parse_mode("WildCard"), Some(StandingsMode::WildCard));
    assert_eq!(parse_mode("LEAGUE"), Some(StandingsMode::League));
}

#[test]
fn record_chase_message() {
    let lines = chase_lines(Some(853));
    assert_eq!(lines.len(), 3);
    assert_eq!(
        lines[1].spans[0].text,
        "Ovi has 853 goals and needs 41 more to tie and 42 to beat Gretzky's record of 894."
    );
    assert_eq!(lines[1].spans[0].tone, nhl_cli::render::Tone::Highlight);
    assert_eq!(
        chase_lines(None)[1].spans[0].text,
        "Ovi has 0 goals and needs 894 more to tie and 895 to beat Gretzky's record of 894."
    );
    assert_eq!(nhl_cli::milestone::chaser_path(), "player/8471214/landing");
    assert!(nhl_cli::milestone::within_record(Some(894)));
    assert!(!nhl_cli::milestone::within_record(Some(895)));
    assert!(nhl_cli::milestone::within_record(None));
}
