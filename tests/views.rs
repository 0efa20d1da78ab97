use nhl_cli::boxscore::{
    box_score_lines_with_date, goal_line, grid_row, status_line, Assist, GameDetail, Goal, PeriodGoals,
};
use nhl_cli::leaders::{format_value, leader_board, parse_category, LeaderCategory, LeaderEntry, ValueStyle};
use nhl_cli::render::{Line, Tone};
use nhl_cli::schedule::{menu_entries, schedule_lines, ScheduleDay, ScheduledGame};
use nhl_cli::standings::{
    conference_groups, league_order, parse_mode, standings_lines, team_line, wild_card_groups,
    StandingsMode, TeamStanding,
};

fn s(t: &str) -> Option<String> {
    Some(t.to_string())
}

fn text(l: &Line) -> String {
    l.spans.iter().map(|sp| sp.text.as_str()).collect::<Vec<_>>().join("")
}

fn team(name: &str, conf: &str, div: &str, points: i64) -> TeamStanding {
    TeamStanding {
        team_name: s(name),
        conference_name: s(conf),
        division_name: s(div),
        games_played: Some(10),
        wins: Some(5),
        losses: Some(3),
        ot_losses: Some(2),
        points: Some(points),
        point_pctg: s("0.6"),
    }
}

fn goal(team: &str, first: &str, last: &str, tally: i64, assists: Vec<(&str, &str, i64)>) -> Goal {
    Goal {
        time_in_period: s("05:12"),
        team_abbrev: s(team),
        first_name: s(first),
        last_name: s(last),
        goals_to_date: Some(tally),
        assists: Some(
            assists
                .into_iter()
                .map(|(f, l, n)| Assist { first_name: s(f), last_name: s(l), assists_to_date: Some(n) })
                .collect(),
        ),
    }
}

fn game(periods: Vec<Vec<Goal>>) -> GameDetail {
    GameDetail {
        away_name: s("Kraken"),
        home_name: s("Oilers"),
        away_abbrev: s("SEA"),
        game_date: s("2024-10-08"),
        game_state: s("OFF"),
        period_number: Some(3),
        in_intermission: Some(false),
        time_remaining: s("00:00"),
        scoring: Some(periods.into_iter().map(|g| PeriodGoals { goals: Some(g) }).collect()),
    }
}

#[test]
fn schedule_day_marks_the_winner() {
    let days = vec![ScheduleDay {
        date: s("2024-10-08"),
        games: Some(vec![ScheduledGame {
            id: Some(2024020001),
            away_name: s("Kraken"),
            home_name: s("Oilers"),
            away_score: Some(3),
            home_score: Some(2),
            game_state: s("OFF"),
        }]),
    }];
    let lines = schedule_lines(&days);
    assert_eq!(lines.len(), 5);
    assert!(lines[0].spans.is_empty());
    assert_eq!(text(&lines[1]), "-".repeat(52));
    assert_eq!(text(&lines[2]).trim(), "Tuesday, October 08");
    assert_eq!(text(&lines[2]).len(), 52);
    let row = &lines[4];
    assert_eq!(text(row), format!("{:>18} {:>2} vs {:<2} {}", "Kraken", 3, 2, "Oilers"));
    assert_eq!(row.spans[0].text.trim(), "Kraken");
    assert_eq!(row.spans[0].tone, Tone::Highlight);
    assert_eq!(row.spans[2].tone, Tone::Highlight);
    assert_eq!(row.spans[4].tone, Tone::Plain);
    assert_eq!(row.spans[6].text, "Oilers");
    assert_eq!(row.spans[6].tone, Tone::Plain);
}

#[test]
fn schedule_tie_and_empty_day_and_window_of_three() {
    let g = |a: i64, h: i64| ScheduledGame {
        id: None,
        away_name: None,
        home_name: s("Oilers"),
        away_score: Some(a),
        home_score: Some(h),
        game_state: None,
    };
    let days = vec![
        ScheduleDay { date: s("2024-10-08"), games: Some(vec![g(1, 1), g(0, 4)]) },
        ScheduleDay { date: s("not a date"), games: Some(vec![]) },
        ScheduleDay { date: s("2024-10-10"), games: None },
        ScheduleDay { date: s("2024-10-11"), games: Some(vec![g(9, 0)]) },
    ];
    let lines = schedule_lines(&days);
    // Four heading lines and two games, then four heading lines and the placeholder.
    assert_eq!(lines.len(), 11);
    assert!(lines[4].spans.iter().all(|sp| sp.tone == Tone::Plain));
    assert_eq!(lines[4].spans[0].text.trim(), "Unknown");
    assert_eq!(lines[5].spans[6].tone, Tone::Highlight);
    assert_eq!(text(&lines[8]).trim(), "not a date");
    assert_eq!(text(&lines[10]).trim(), "No games scheduled for today");
}

#[test]
fn game_menu_is_most_recent_first() {
    let g = |id: i64, state: &str| ScheduledGame {
        id: Some(id),
        away_name: s("Kraken"),
        home_name: s("Oilers"),
        away_score: Some(1),
        home_score: Some(2),
        game_state: s(state),
    };
    let days = vec![
        ScheduleDay { date: s("2024-10-07"), games: Some(vec![g(1, "OFF"), g(2, "LIVE")]) },
        ScheduleDay { date: s("2024-10-08"), games: Some(vec![g(3, "FUT")]) },
        ScheduleDay { date: s("2024-10-09"), games: Some(vec![g(4, "PRE")]) },
        ScheduleDay { date: s("2024-10-10"), games: Some(vec![g(5, "FUT")]) },
    ];
    let entries = menu_entries(&days);
    let ids: Vec<i64> = entries.iter().map(|e| e.game_id).collect();
    assert_eq!(ids, vec![4, 3, 2, 1]);
    assert_eq!(
        entries[3].label,
        format!("{:<10} {:>18} {:>2} vs {:<2} {:<18} {:<10}  ", "Monday", "Kraken", 1, 2, "Oilers", "Final")
    );
    assert!(entries[2].label.contains("LIVE"));
    assert!(entries[1].label.contains("Future"));
    assert!(entries[0].label.contains("PRE"));
    assert!(menu_entries(&vec![]).is_empty());
}

#[test]
fn box_score_grid_and_play_log() {
    let a = || goal("SEA", "Jared", "McCann", 4, vec![("Matty", "Beniers", 2)]);
    // Both scorers play for the away side.
    let b = goal("SEA", "Jordan", "Eberle", 7, vec![]);
    let g = game(vec![vec![a(), a()], vec![], vec![b]]);
    let periods = g.scoring.as_ref().unwrap();
    let away = grid_row(periods, &g.away_abbrev, true);
    let home = grid_row(periods, &g.away_abbrev, false);
    assert_eq!(away.columns, vec![2, 0, 1, 0]);
    assert_eq!(away.final_total, 3);
    assert_eq!(home.columns, vec![0, 0, 0, 0]);
    assert_eq!(home.final_total, 0);
    let lines = box_score_lines_with_date(&g, "Tuesday, October 08");
    let all: Vec<String> = lines.iter().map(text).collect();
    assert_eq!(all[9], format!("{:>20} {:>8} {:>8} {:>8} {:>8} {:>8}", "", "1st", "2nd", "3rd", "OT", "Final"));
    assert_eq!(all[10], format!("{:>20} {:>8} {:>8} {:>8} {:>8} {:>8}", "Kraken", 2, 0, 1, 0, 3));
    assert_eq!(all[11], format!("{:>20} {:>8} {:>8} {:>8} {:>8} {:>8}", "Oilers", 0, 0, 0, 0, 0));
    let labels: Vec<&String> = all.iter().filter(|t| t.starts_with("Period ") || *t == "Overtime" || *t == "Shootout").collect();
    assert_eq!(labels, vec!["Period 1", "Period 2", "Period 3"]);
    let second = all.iter().position(|t| t == "Period 2").unwrap();
    assert_eq!(all[second + 1], "No goals scored in this period");
    assert_eq!(all[second + 2], "");
    assert_eq!(all[second + 3], "Period 3");
    assert_eq!(all[second + 4], "05:12 SEA - Jordan Eberle (7) (Unassisted)");
    assert_eq!(all.len(), second + 5);
}

#[test]
fn box_score_folds_shootout_into_overtime() {
    let a = || goal("SEA", "A", "B", 1, vec![]);
    let h = || goal("EDM", "C", "D", 1, vec![]);
    let g = game(vec![vec![a()], vec![h()], vec![], vec![a(), h()], vec![a(), a(), h()]]);
    let periods = g.scoring.as_ref().unwrap();
    let away = grid_row(periods, &g.away_abbrev, true);
    let home = grid_row(periods, &g.away_abbrev, false);
    assert_eq!(away.columns, vec![1, 0, 0, 3]);
    assert_eq!(away.final_total, 4);
    assert_eq!(home.columns, vec![0, 1, 0, 2]);
    assert_eq!(home.final_total, 3);
    let lines = box_score_lines_with_date(&g, "x");
    let all: Vec<String> = lines.iter().map(text).collect();
    assert!(all.contains(&"Overtime".to_string()));
    assert!(all.contains(&"Shootout".to_string()));
    let four = game(vec![vec![], vec![], vec![], vec![a()]]);
    let row = grid_row(four.scoring.as_ref().unwrap(), &four.away_abbrev, true);
    assert_eq!(row.columns, vec![0, 0, 0, 1]);
    assert_eq!(row.final_total, 1);
}

#[test]
fn goal_lines_list_assists() {
    let g = goal("SEA", "Jared", "McCann", 4, vec![("Matty", "Beniers", 2), ("Vince", "Dunn", 9)]);
    assert_eq!(goal_line(&g), "05:12 SEA - Jared McCann (4) (Assists: Matty Beniers (2), Vince Dunn (9))");
    let bare = Goal { time_in_period: None, team_abbrev: None, first_name: None, last_name: None, goals_to_date: None, assists: None };
    assert_eq!(goal_line(&bare), "00:00  -   (0) (Unassisted)");
}

#[test]
fn status_lines_follow_the_state() {
    let mut g = game(vec![]);
    assert_eq!(status_line(&g), "Final");
    g.period_number = Some(4);
    assert_eq!(status_line(&g), "Final - Overtime");
    g.period_number = Some(5);
    g.game_state = s("FINAL");
    assert_eq!(status_line(&g), "Final - Shootout");
    g.game_state = s("LIVE");
    g.time_remaining = s("12:34");
    g.period_number = Some(2);
    assert_eq!(status_line(&g), "Period 2 - 12:34");
    g.in_intermission = Some(true);
    assert_eq!(status_line(&g), "Intermission 2 - 12:34");
    g.period_number = Some(4);
    assert_eq!(status_line(&g), "Intermission OT - 12:34");
    g.in_intermission = Some(false);
    assert_eq!(status_line(&g), "Overtime OT - 12:34");
    g.period_number = Some(5);
    assert_eq!(status_line(&g), "Shootout OT/SO - 12:34");
    g.game_state = s("PRE");
    assert_eq!(status_line(&g), "Pre-Game");
    g.game_state = s("FUT");
    assert_eq!(status_line(&g), "Game Scheduled");
    g.game_state = s("CRIT");
    assert_eq!(status_line(&g), "CRIT");
    g.game_state = None;
    assert_eq!(status_line(&g), "");
}

#[test]
fn box_score_without_summary_has_no_play_log() {
    let mut g = game(vec![]);
    g.scoring = None;
    let lines = box_score_lines_with_date(&g, "Tuesday, October 08");
    let all: Vec<String> = lines.iter().map(text).collect();
    assert_eq!(all.len(), 10);
    assert_eq!(all[2].trim(), "Kraken @ Oilers");
    assert_eq!(all[3].trim(), "Tuesday, October 08");
    assert_eq!(lines[2].spans[0].tone, Tone::Strong);
}

#[test]
fn save_percentage_reads_as_percent() {
    assert_eq!(format_value(ValueStyle::Percent, "0.927"), "92.70%");
    assert_eq!(format_value(ValueStyle::Minutes, "25.456"), "25.46m");
    assert_eq!(format_value(ValueStyle::Plain, "12.5"), "12.5");
    assert_eq!(format_value(ValueStyle::Percent, "0"), "0.00%");
    assert_eq!(format_value(ValueStyle::Percent, "n/a"), "n/a%");
}

#[test]
fn categories_map_keywords() {
    assert_eq!(parse_category("Save-Percentage"), Some(LeaderCategory::SavePercentage));
    assert_eq!(parse_category("toi"), None);
    assert_eq!(parse_category("goals-against-avg"), None);
    assert_eq!(parse_category("time-on-ice"), Some(LeaderCategory::TimeOnIce));
    assert_eq!(parse_category("goals-against-average"), Some(LeaderCategory::GoalsAgainstAverage));
    assert_eq!(parse_category("hits"), None);
    let c = LeaderCategory::SavePercentage;
    assert_eq!(c.field(), "savePctg");
    assert_eq!(c.label(), "Save %");
    assert_eq!(c.title(), "Goalie Save Percentage Leaders");
}

#[test]
fn leader_board_shows_twenty_ranked() {
    let entries: Vec<LeaderEntry> = (0..25)
        .map(|i| LeaderEntry {
            first_name: s("P"),
            last_name: Some(format!("{}", i)),
            team_name: if i == 0 { None } else { s("SEA") },
            value: Some(format!("{}", i % 7)),
        })
        .collect();
    let lines = leader_board(LeaderCategory::Goals, &entries);
    assert_eq!(lines.len(), 6 + 20);
    assert_eq!(text(&lines[2]).trim(), "Player Goal Leaders");
    assert_eq!(text(&lines[4]), format!("{:<4} {:<25} {:<20} {:>8}", "Rank", "Player", "Team", "Goals"));
    let mut last = i64::MAX;
    for (q, l) in lines[6..].iter().enumerate() {
        let t = text(l);
        assert!(t.starts_with(&format!("{:<4} ", q + 1)));
        let v: i64 = l.spans[1].text.trim().parse().unwrap();
        assert!(v <= last);
        last = v;
    }
    // Entries 6, 13 and 20 hold the top key; ties keep the given order.
    assert!(text(&lines[6]).contains("P 6 "));
    assert!(text(&lines[7]).contains("P 13 "));
    assert!(text(&lines[8]).contains("P 20 "));
    let first: Vec<LeaderEntry> = entries.into_iter().take(1).collect();
    let small = leader_board(LeaderCategory::SavePercentage, &first);
    assert_eq!(small.len(), 7);
    assert_eq!(small[6].spans[1].text, "   0.00%");
    assert!(text(&small[6]).contains("---"));
}

fn leader(last: &str, value: Option<&str>) -> LeaderEntry {
    LeaderEntry { first_name: s("P"), last_name: s(last), team_name: s("SEA"), value: value.map(String::from) }
}

#[test]
fn leader_board_sorts_by_value() {
    let lines = leader_board(LeaderCategory::Points, &vec![leader("One", Some("1")), leader("Two", Some("2"))]);
    assert!(text(&lines[6]).contains("P Two "));
    assert!(text(&lines[7]).contains("P One "));
    let saves = vec![
        leader("A", Some("0.915")),
        leader("B", Some("0.927")),
        leader("C", Some("0.9")),
        leader("D", None),
        leader("E", Some("0.927")),
    ];
    let lines = leader_board(LeaderCategory::SavePercentage, &saves);
    let order: Vec<String> = lines[6..].iter().map(|l| l.spans[1].text.trim().to_string()).collect();
    assert_eq!(order, vec!["92.70%", "92.70%", "91.50%", "90.00%", "0.00%"]);
    assert!(text(&lines[6]).contains("P B "));
    assert!(text(&lines[7]).contains("P E "));
}

#[test]
fn leader_values_compare_exactly_at_any_length() {
    let entries = vec![
        leader("Small", Some("1")),
        leader("Big", Some("1000000000000000000")),
        leader("Longer", Some("0.1234567890123456789012346")),
        leader("Long", Some("0.1234567890123456789012345")),
        leader("Zero", Some("0")),
        leader("NegZero", Some("-0.000")),
        leader("Bigger", Some("123456789012345678901234567890123456789012")),
        leader("Neg", Some("-1e3")),
    ];
    let lines = leader_board(LeaderCategory::Points, &entries);
    let names: Vec<String> = lines[6..].iter().map(|l| l.spans[0].text.split_whitespace().nth(2).unwrap().to_string()).collect();
    // "-1e3" is no decimal text and counts as 0, after the zeros given before it.
    assert_eq!(names, vec!["Bigger", "Big", "Small", "Longer", "Long", "Zero", "NegZero", "Neg"]);
}

#[test]
fn leader_board_keeps_the_top_twenty_by_value() {
    let mut entries: Vec<LeaderEntry> = (0..20).map(|i| leader(&format!("L{}", i), Some("3"))).collect();
    entries.push(leader("Best", Some("41")));
    let lines = leader_board(LeaderCategory::Goals, &entries);
    assert_eq!(lines.len(), 26);
    assert!(text(&lines[6]).contains("P Best "));
    assert!(!lines.iter().any(|l| text(l).contains("P L19 ")));
    let mut ones: Vec<LeaderEntry> = (0..20).map(|i| leader(&format!("One{}", i), Some("1"))).collect();
    ones.push(leader("Huge", Some("1000000000000000000")));
    let lines = leader_board(LeaderCategory::Goals, &ones);
    assert!(text(&lines[6]).contains("P Huge "));
    assert!(!lines.iter().any(|l| text(l).contains("P One19 ")));
    let minus = vec![leader("Low", Some("-4")), leader("High", Some("12")), leader("Mid", Some("-0.5"))];
    let lines = leader_board(LeaderCategory::PlusMinus, &minus);
    let values: Vec<String> = lines[6..].iter().map(|l| l.spans[1].text.trim().to_string()).collect();
    assert_eq!(values, vec!["12", "-0.5", "-4"]);
}

#[test]
fn league_order_is_stable() {
    let teams = vec![
        team("A", "East", "Atlantic", 10),
        team("B", "East", "Atlantic", 12),
        team("C", "West", "Pacific", 10),
        team("D", "West", "Pacific", 12),
        TeamStanding { points: None, ..team("E", "West", "Pacific", 0) },
    ];
    assert_eq!(league_order(&teams), vec![1, 3, 0, 2, 4]);
    let lines = standings_lines(StandingsMode::League, &teams);
    assert_eq!(text(&lines[2]).trim(), "NHL STANDINGS");
    assert_eq!(text(&lines[4]), format!("{:<22} {:>3} {:>3} {:>3} {:>3} {:>3} {:>6}", "Team", "GP", "W", "L", "OTL", "PTS", "PCT"));
    assert_eq!(lines[4].spans[0].tone, Tone::Heading);
    assert_eq!(text(&lines[5]), format!("{:<22} {:>3} {:>3} {:>3} {:>3} {:>3} {:>6.3}", "B", 10, 5, 3, 2, 12, 0.6));
    assert_eq!(lines[5].spans[1].tone, Tone::Strong);
    assert_eq!(lines.len(), 10);
}

#[test]
fn team_row_formats_percentage() {
    let mut t = team("Seattle Kraken", "Western", "Pacific", 71);
    t.point_pctg = s("0.5234");
    assert_eq!(text(&team_line(&t)), format!("{:<22} {:>3} {:>3} {:>3} {:>3} {:>3} {:>6.3}", "Seattle Kraken", 10, 5, 3, 2, 71, 0.523));
    t.point_pctg = None;
    assert!(text(&team_line(&t)).ends_with(" 0.000"));
    // 49 points in 40 games: the double lies just above the decimal tie.
    t.point_pctg = Some(format!("{:.20}", 0.6125_f64));
    assert!(text(&team_line(&t)).ends_with(&format!(" {:>6.3}", 0.6125_f64)));
    assert!(text(&team_line(&t)).ends_with("  0.613"));
}

#[test]
fn conference_groups_cover_every_team_once() {
    let teams = vec![
        team("A", "Western", "Pacific", 1),
        team("B", "Eastern", "Atlantic", 5),
        team("C", "Western", "Central", 7),
        team("D", "Eastern", "Metropolitan", 5),
        TeamStanding { conference_name: None, ..team("E", "", "Central", 2) },
    ];
    let groups = conference_groups(&teams);
    let names: Vec<&str> = groups.iter().map(|g| g.name.as_str()).collect();
    assert_eq!(names, vec!["Eastern", "Unknown", "Western"]);
    assert_eq!(groups[0].order, vec![1, 3]);
    assert_eq!(groups[1].order, vec![4]);
    assert_eq!(groups[2].order, vec![2, 0]);
    let lines = standings_lines(StandingsMode::Conference, &teams);
    assert_eq!(text(&lines[2]).trim(), "EASTERN");
}

fn wild_card_fixture() -> Vec<TeamStanding> {
    let mut teams = Vec::new();
    for (conf, divs) in [("Eastern", ["Atlantic", "Metropolitan"]), ("Western", ["Central", "Pacific"])] {
        for div in divs {
            for k in 0..4 {
                teams.push(team(&format!("{}{}", &div[..3], k), conf, div, 10 + 3 * k as i64 + div.len() as i64));
            }
        }
    }
    teams
}

#[test]
fn wild_card_layout_places_each_team_once() {
    let teams = wild_card_fixture();
    let ws = wild_card_groups(&teams);
    assert_eq!(ws.len(), 2);
    for w in &ws {
        assert_eq!(w.divisions.len(), 2);
        let mut seen: Vec<usize> = Vec::new();
        for d in &w.divisions {
            assert_eq!(d.order.len(), 4);
            seen.extend(d.order.iter().take(3));
        }
        assert_eq!(seen.len(), 6);
        assert_eq!(w.wild_card.len(), 8 - 6);
        seen.extend(w.wild_card.iter());
        seen.sort();
        seen.dedup();
        assert_eq!(seen.len(), 8);
        for i in &seen {
            assert_eq!(teams[*i].conference_name.as_deref(), Some(w.name.as_str()));
        }
    }
    assert_eq!(ws[0].divisions[0].name, "Atlantic");
    assert_eq!(ws[0].divisions[0].order, vec![3, 2, 1, 0]);
    // Metropolitan's fourth team has more points than Atlantic's.
    assert_eq!(ws[0].wild_card, vec![4, 0]);
}

#[test]
fn wild_card_rule_after_second_entry() {
    let mut teams = wild_card_fixture();
    for k in 0..3 {
        teams.push(team(&format!("Extra{}", k), "Eastern", "Atlantic", 1 + k));
    }
    let lines = standings_lines(StandingsMode::WildCard, &teams);
    let all: Vec<String> = lines.iter().map(text).collect();
    assert_eq!(all[2].trim(), "EASTERN CONFERENCE");
    assert_eq!(all[5], "Atlantic Division");
    let wc = all.iter().position(|t| t == "Wild Card").unwrap();
    assert_eq!(all[wc + 1].trim_start().starts_with("Team"), true);
    assert!(all[wc + 2].starts_with("Met0"));
    assert!(all[wc + 3].starts_with("Atl0"));
    assert_eq!(all[wc + 4], "-".repeat(52));
    assert!(all[wc + 5].starts_with("Extra2"));
    // Two rules in each banner, one wild-card rule in the East only.
    assert_eq!(all.iter().filter(|t| **t == "-".repeat(52)).count(), 2 * 2 + 1);
}

#[test]
fn modes_map_keywords() {
    assert_eq!(parse_mode("League"), Some(StandingsMode::League));
    assert_eq!(parse_mode("CONFERENCE"), Some(StandingsMode::Conference));
    assert_eq!(parse_mode("wildcard"), Some(StandingsMode::WildCard));
    assert_eq!(parse_mode("division"), Some(StandingsMode::WildCard));
    assert_eq!(parse_mode("weekly"), None);
}

#[test]
fn views_repeat_identically() {
    let teams = wild_card_fixture();
    for mode in [StandingsMode::League, StandingsMode::Conference, StandingsMode::WildCard] {
        let a: Vec<String> = standings_lines(mode, &teams).iter().map(text).collect();
        let b: Vec<String> = standings_lines(mode, &teams).iter().map(text).collect();
        assert_eq!(a, b);
    }
    let g = game(vec![vec![goal("SEA", "A", "B", 1, vec![])]]);
    let a: Vec<String> = box_score_lines_with_date(&g, "d").iter().map(text).collect();
    let b: Vec<String> = box_score_lines_with_date(&g, "d").iter().map(text).collect();
    assert_eq!(a, b);
}
