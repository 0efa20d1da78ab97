use vstd::prelude::*;
use crate::calendar::{date_heading, heading_for_date};
use crate::render::{blank, lines_view, push_line, single, Line, Tone};
use crate::text::{
    center, centered, count_or_zero, int_text, int_to_text, pad_left, pad_right, push_padded_left,
    push_padded_right, push_text, repeat_char, repeated, same_text, text_or, text_or_default,
};

verus! {

/// One game of a schedule.
pub struct ScheduledGame {
    pub id: Option<i64>,
    pub away_name: Option<String>,
    pub home_name: Option<String>,
    pub away_score: Option<i64>,
    pub home_score: Option<i64>,
    pub game_state: Option<String>,
}

/// One day of a schedule window; a day whose game list is absent is passed over.
pub struct ScheduleDay {
    pub date: Option<String>,
    pub games: Option<Vec<ScheduledGame>>,
}

/// How many days of a schedule window are shown.
pub open spec fn shown_days() -> nat {
    3
}

/// The days of the window that are shown: the first three, in the order given.
pub open spec fn first_days(days: Seq<ScheduleDay>) -> Seq<ScheduleDay> {
    if days.len() <= shown_days() {
        days
    } else {
        days.take(shown_days() as int)
    }
}

/// The emphasis of the away and the home side: the side with strictly more goals is the winner.
pub open spec fn side_tones(away: i64, home: i64) -> (Tone, Tone) {
    if away > home {
        (Tone::Highlight, Tone::Plain)
    } else if away < home {
        (Tone::Plain, Tone::Highlight)
    } else {
        (Tone::Plain, Tone::Plain)
    }
}

/// The line of one game: away side right-justified, `vs`, home side, the winner emphasised.
pub open spec fn game_row(g: ScheduledGame) -> Seq<(Seq<char>, Tone)> {
    let a = count_or_zero(g.away_score);
    let h = count_or_zero(g.home_score);
    let (ta, th) = side_tones(a, h);
    seq![
        (pad_left(text_or(g.away_name, "Unknown"@), 18), ta),
        (" "@, Tone::Plain),
        (pad_left(int_text(a as int), 2), ta),
        (" vs "@, Tone::Plain),
        (pad_right(int_text(h as int), 2), th),
        (" "@, Tone::Plain),
        (text_or(g.home_name, "Unknown"@), th),
    ]
}

/// The width of the schedule.
pub open spec fn schedule_width() -> nat {
    52
}

/// The lines of one day: its heading between rules, then its games or a line saying there
/// are none.  A day without a game list shows nothing.
pub open spec fn day_lines(d: ScheduleDay) -> Seq<Seq<(Seq<char>, Tone)>> {
    match d.games {
        None => Seq::empty(),
        Some(games) => seq![
            blank(),
            single(repeat_char('-', schedule_width()), Tone::Plain),
            single(
                center(date_heading(text_or(d.date, "Unknown"@), "%A, %B %d"@), schedule_width()),
                Tone::Plain,
            ),
            single(repeat_char('-', schedule_width()), Tone::Plain),
        ] + if games@.len() == 0 {
            seq![single(center("No games scheduled for today"@, schedule_width()), Tone::Plain)]
        } else {
            games@.map_values(|g: ScheduledGame| game_row(g))
        },
    }
}

/// The lines of the days, one after another.
pub open spec fn days_text(days: Seq<ScheduleDay>) -> Seq<Seq<(Seq<char>, Tone)>>
    decreases days.len(),
{
    if days.len() == 0 {
        Seq::empty()
    } else {
        days_text(days.drop_last()) + day_lines(days.last())
    }
}

/// The schedule view of a window: its first three days.
pub open spec fn schedule_text(days: Seq<ScheduleDay>) -> Seq<Seq<(Seq<char>, Tone)>> {
    days_text(first_days(days))
}

/// The line of one game.
pub fn game_line(g: &ScheduledGame) -> (l: Line)
    ensures
        crate::render::line_view(l) == game_row(*g),
{
    let a: i64 = match g.away_score {
        Some(v) => v,
        None => 0,
    };
    let h: i64 = match g.home_score {
        Some(v) => v,
        None => 0,
    };
    let (ta, th) = if a > h {
        (Tone::Highlight, Tone::Plain)
    } else if a < h {
        (Tone::Plain, Tone::Highlight)
    } else {
        (Tone::Plain, Tone::Plain)
    };
    let away = text_or_default(&g.away_name, "Unknown");
    let home = text_or_default(&g.home_name, "Unknown");
    let mut away_cell = String::new();
    push_padded_left(&mut away_cell, away.as_str(), 18);
    let mut away_score = String::new();
    push_padded_left(&mut away_score, int_to_text(a).as_str(), 2);
    let mut home_score = String::new();
    push_padded_right(&mut home_score, int_to_text(h).as_str(), 2);
    let mut l = Line::single(away_cell, ta);
    l.push(String::from_str(" "), Tone::Plain);
    l.push(away_score, ta);
    l.push(String::from_str(" vs "), Tone::Plain);
    l.push(home_score, th);
    l.push(String::from_str(" "), Tone::Plain);
    l.push(home, th);
    assert(crate::render::line_view(l) =~= game_row(*g));
    l
}

fn push_day_lines(out: &mut Vec<Line>, d: &ScheduleDay)
    ensures
        lines_view(final(out)@) == lines_view(old(out)@) + day_lines(*d),
{
    match &d.games {
        None => {
            assert(lines_view(out@) =~= lines_view(old(out)@) + day_lines(*d));
        },
        Some(games) => {
            push_line(out, Line::blank());
            push_line(out, Line::single(repeated('-', 52), Tone::Plain));
            let date = text_or_default(&d.date, "Unknown");
            let heading = heading_for_date(date.as_str(), "%A, %B %d");
            push_line(out, Line::single(centered(heading.as_str(), 52), Tone::Plain));
            push_line(out, Line::single(repeated('-', 52), Tone::Plain));
            let ghost start = lines_view(out@);
            if games.len() == 0 {
                push_line(out, Line::single(centered("No games scheduled for today", 52), Tone::Plain));
            } else {
                let ghost rows = games@.map_values(|g: ScheduledGame| game_row(g));
                let mut i: usize = 0;
                while i < games.len()
                    invariant
                        i <= games@.len(),
                        rows == games@.map_values(|g: ScheduledGame| game_row(g)),
                        lines_view(out@) == start + rows.take(i as int),
                    decreases games@.len() - i,
                {
                    push_line(out, game_line(&games[i]));
                    assert(rows.take(i + 1) =~= rows.take(i as int).push(rows[i as int]));
                    i = i + 1;
                }
                assert(rows.take(i as int) =~= rows);
            }
            assert(lines_view(out@) =~= lines_view(old(out)@) + day_lines(*d));
        },
    }
}

/// The schedule view: for each of the first three days of the window, in the order given,
/// its heading and its games, the winner of each emphasised.
pub fn schedule_lines(days: &Vec<ScheduleDay>) -> (r: Vec<Line>)
    ensures
        lines_view(r@) == schedule_text(days@),
{
    let n = if days.len() < 3 {
        days.len()
    } else {
        3
    };
    let mut out: Vec<Line> = Vec::new();
    let mut i: usize = 0;
    while i < n
        invariant
            n <= days@.len(),
            n == first_days(days@).len(),
            i <= n,
            lines_view(out@) == days_text(days@.take(i as int)),
        decreases n - i,
    {
        push_day_lines(&mut out, &days[i]);
        assert(days@.take(i + 1).drop_last() =~= days@.take(i as int));
        i = i + 1;
    }
    assert(days@.take(n as int) =~= first_days(days@));
    out
}

/// The status word of a game in the game menu.
pub open spec fn menu_status(state: Seq<char>) -> Seq<char> {
    if state == "LIVE"@ {
        "LIVE"@
    } else if state == "FINAL"@ || state == "OFF"@ {
        "Final"@
    } else if state == "FUT"@ {
        "Future"@
    } else {
        state
    }
}

/// The menu line of a game on the day named `weekday`.
pub open spec fn menu_label(weekday: Seq<char>, g: ScheduledGame) -> Seq<char> {
    pad_right(weekday, 10) + " "@ + pad_left(text_or(g.away_name, "Unknown"@), 18) + " "@ + pad_left(
        int_text(count_or_zero(g.away_score) as int),
        2,
    ) + " vs "@ + pad_right(int_text(count_or_zero(g.home_score) as int), 2) + " "@ + pad_right(
        text_or(g.home_name, "Unknown"@),
        18,
    ) + " "@ + pad_right(menu_status(text_or(g.game_state, ""@)), 10) + "  "@
}

/// The menu entries of one day: a line and a game identifier (0 where absent) per game.
pub open spec fn day_entries(d: ScheduleDay) -> Seq<(Seq<char>, i64)> {
    match d.games {
        None => Seq::empty(),
        Some(games) => games@.map_values(
            |g: ScheduledGame|
                (
                    menu_label(date_heading(text_or(d.date, "Unknown"@), "%A"@), g),
                    count_or_zero(g.id),
                ),
        ),
    }
}

/// The menu entries of the days, in the order played.
pub open spec fn entries_in_order(days: Seq<ScheduleDay>) -> Seq<(Seq<char>, i64)>
    decreases days.len(),
{
    if days.len() == 0 {
        Seq::empty()
    } else {
        entries_in_order(days.drop_last()) + day_entries(days.last())
    }
}

/// The game menu of a window: the games of its first three days, most recent first.
pub open spec fn menu_text(days: Seq<ScheduleDay>) -> Seq<(Seq<char>, i64)> {
    entries_in_order(first_days(days)).reverse()
}

/// One entry of the game menu.
pub struct MenuEntry {
    pub label: String,
    pub game_id: i64,
}

/// What the menu entries show and identify.
pub open spec fn entries_view(es: Seq<MenuEntry>) -> Seq<(Seq<char>, i64)> {
    es.map_values(|e: MenuEntry| (e.label@, e.game_id))
}

/// The status word of a game in the game menu.
fn menu_status_text(state: &str) -> (r: String)
    ensures
        r@ == menu_status(state@),
{
    if same_text(state, "LIVE") {
        String::from_str("LIVE")
    } else if same_text(state, "FINAL") || same_text(state, "OFF") {
        String::from_str("Final")
    } else if same_text(state, "FUT") {
        String::from_str("Future")
    } else {
        String::from_str(state)
    }
}

/// The menu line of a game on the day named `weekday`.
pub fn menu_line(weekday: &str, g: &ScheduledGame) -> (r: String)
    ensures
        r@ == menu_label(weekday@, *g),
{
    let a: i64 = match g.away_score {
        Some(v) => v,
        None => 0,
    };
    let h: i64 = match g.home_score {
        Some(v) => v,
        None => 0,
    };
    let away = text_or_default(&g.away_name, "Unknown");
    let home = text_or_default(&g.home_name, "Unknown");
    let state = text_or_default(&g.game_state, "");
    let status = menu_status_text(state.as_str());
    let mut r = String::new();
    push_padded_right(&mut r, weekday, 10);
    push_text(&mut r, " ");
    push_padded_left(&mut r, away.as_str(), 18);
    push_text(&mut r, " ");
    push_padded_left(&mut r, int_to_text(a).as_str(), 2);
    push_text(&mut r, " vs ");
    push_padded_right(&mut r, int_to_text(h).as_str(), 2);
    push_text(&mut r, " ");
    push_padded_right(&mut r, home.as_str(), 18);
    push_text(&mut r, " ");
    push_padded_right(&mut r, status.as_str(), 10);
    push_text(&mut r, "  ");
    assert(r@ =~= menu_label(weekday@, *g));
    r
}

fn push_day_entries(out: &mut Vec<MenuEntry>, d: &ScheduleDay)
    ensures
        entries_view(final(out)@) == entries_view(old(out)@) + day_entries(*d),
{
    match &d.games {
        None => {
            assert(entries_view(out@) =~= entries_view(old(out)@) + day_entries(*d));
        },
        Some(games) => {
            let date = text_or_default(&d.date, "Unknown");
            let weekday = heading_for_date(date.as_str(), "%A");
            let ghost start = entries_view(out@);
            let ghost es = day_entries(*d);
            let mut i: usize = 0;
            while i < games.len()
                invariant
                    i <= games@.len(),
                    d.games == Some(*games),
                    es == day_entries(*d),
                    weekday@ == date_heading(text_or(d.date, "Unknown"@), "%A"@),
                    entries_view(out@) == start + es.take(i as int),
                decreases games@.len() - i,
            {
                let g = &games[i];
                let label = menu_line(weekday.as_str(), g);
                let id: i64 = match g.id {
                    Some(v) => v,
                    None => 0,
                };
                let ghost before = out@;
                out.push(MenuEntry { label, game_id: id });
                assert(entries_view(out@) =~= entries_view(before).push((label@, id)));
                assert(es.take(i + 1) =~= es.take(i as int).push(es[i as int]));
                i = i + 1;
            }
            assert(es.take(i as int) =~= es);
        },
    }
}

/// The game menu: one entry per game of the first three days of the window, most recent
/// first, each with its line and its game identifier.
pub fn menu_entries(days: &Vec<ScheduleDay>) -> (r: Vec<MenuEntry>)
    ensures
        entries_view(r@) == menu_text(days@),
{
    let n = if days.len() < 3 {
        days.len()
    } else {
        3
    };
    let mut forward: Vec<MenuEntry> = Vec::new();
    let mut i: usize = 0;
    while i < n
        invariant
            n <= days@.len(),
            n == first_days(days@).len(),
            i <= n,
            entries_view(forward@) == entries_in_order(days@.take(i as int)),
        decreases n - i,
    {
        push_day_entries(&mut forward, &days[i]);
        assert(days@.take(i + 1).drop_last() =~= days@.take(i as int));
        i = i + 1;
    }
    assert(days@.take(n as int) =~= first_days(days@));
    let ghost fv = entries_view(forward@);
    let mut r: Vec<MenuEntry> = Vec::new();
    while forward.len() > 0
        invariant
            fv.len() == entries_view(forward@).len() + entries_view(r@).len(),
            entries_view(forward@) == fv.take(entries_view(forward@).len() as int),
            entries_view(r@) == fv.reverse().take(entries_view(r@).len() as int),
        decreases forward@.len(),
    {
        let ghost before_f = forward@;
        let ghost before_r = r@;
        let e = forward.pop().unwrap();
        r.push(e);
        proof {
            let k = entries_view(before_f).len() as int;
            assert(entries_view(before_f)[k - 1] == (e.label@, e.game_id));
            assert(entries_view(forward@) =~= entries_view(before_f).take(k - 1));
            assert(entries_view(forward@) =~= fv.take(k - 1));
            assert(entries_view(r@) =~= entries_view(before_r).push((e.label@, e.game_id)));
            assert(fv[k - 1] == (e.label@, e.game_id));
            assert(entries_view(r@) =~= fv.reverse().take(entries_view(r@).len() as int));
        }
    }
    assert(entries_view(r@) =~= fv.reverse());
    r
}

} // verus!
