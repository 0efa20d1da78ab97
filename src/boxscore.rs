use vstd::prelude::*;
use crate::render::{blank, concat_lines, lines_view, push_line, single, Line, Tone};
use crate::calendar::{date_heading, heading_for_date};
use crate::text::{
    center, centered, count_or_zero, count_to_text, digits_of, int_text, int_to_text, opt_text,
    pad_left, push_padded_left, push_text, repeat_char, repeated, same_text, text_or,
    text_or_default,
};

verus! {

/// A player credited with an assist.
pub struct Assist {
    pub first_name: Option<String>,
    pub last_name: Option<String>,
    pub assists_to_date: Option<i64>,
}

/// One goal of a game's scoring summary.
pub struct Goal {
    pub time_in_period: Option<String>,
    pub team_abbrev: Option<String>,
    pub first_name: Option<String>,
    pub last_name: Option<String>,
    pub goals_to_date: Option<i64>,
    pub assists: Option<Vec<Assist>>,
}

/// The goals of one period (or of overtime, or of the shootout), in the order they came.
pub struct PeriodGoals {
    pub goals: Option<Vec<Goal>>,
}

/// The detail of one game.
pub struct GameDetail {
    pub away_name: Option<String>,
    pub home_name: Option<String>,
    pub away_abbrev: Option<String>,
    pub game_date: Option<String>,
    pub game_state: Option<String>,
    pub period_number: Option<i64>,
    pub in_intermission: Option<bool>,
    pub time_remaining: Option<String>,
    /// One bucket per period played; absent where the data has no scoring summary.
    pub scoring: Option<Vec<PeriodGoals>>,
}

/// The goals of a period, none where the list is absent.
pub open spec fn goals_of(p: PeriodGoals) -> Seq<Goal> {
    match p.goals {
        Some(g) => g@,
        None => Seq::empty(),
    }
}

/// The goal counts for the away side: its abbreviation is the away team's (two absent
/// abbreviations count as equal).  Every other goal counts for the home side.
pub open spec fn scored_by_away(g: Goal, away: Option<Seq<char>>) -> bool {
    opt_text(g.team_abbrev) == away
}

/// How many of the goals count for the chosen side.
pub open spec fn side_goals(goals: Seq<Goal>, away: Option<Seq<char>>, for_away: bool) -> nat
    decreases goals.len(),
{
    if goals.len() == 0 {
        0
    } else {
        side_goals(goals.drop_last(), away, for_away) + if scored_by_away(goals.last(), away)
            == for_away {
            1nat
        } else {
            0nat
        }
    }
}

/// The goals of the chosen side in each period bucket.
pub open spec fn period_counts(periods: Seq<PeriodGoals>, away: Option<Seq<char>>, for_away: bool) -> Seq<nat> {
    periods.map_values(|p: PeriodGoals| side_goals(goals_of(p), away, for_away))
}

/// The period columns of the summary grid: a regulation-only game gets an empty overtime
/// column, and a shootout's goals are added to the overtime column.
pub open spec fn grid_columns(counts: Seq<nat>) -> Seq<nat> {
    if counts.len() == 3 {
        counts.push(0)
    } else if counts.len() == 5 {
        counts.take(3).push(counts[3] + counts[4])
    } else {
        counts
    }
}

/// The sum of a sequence of counts.
pub open spec fn total(s: Seq<nat>) -> nat
    decreases s.len(),
{
    if s.len() == 0 {
        0
    } else {
        total(s.drop_last()) + s.last()
    }
}

/// One team's row of the summary grid: its period columns and the final total.
pub struct GridRow {
    pub columns: Vec<u128>,
    pub final_total: u128,
}

/// The numbers of a grid row.
pub open spec fn row_numbers(r: GridRow) -> (Seq<nat>, nat) {
    (nats(r.columns@), r.final_total as nat)
}

/// Counts as natural numbers.
pub open spec fn nats(s: Seq<u128>) -> Seq<nat> {
    s.map_values(|c: u128| c as nat)
}

/// The grid row of one side: its normalised period columns and their sum.
pub open spec fn grid_row_spec(periods: Seq<PeriodGoals>, away: Option<Seq<char>>, for_away: bool) -> (Seq<nat>, nat) {
    let cols = grid_columns(period_counts(periods, away, for_away));
    (cols, total(cols))
}

proof fn lemma_side_goals_bound(goals: Seq<Goal>, away: Option<Seq<char>>, for_away: bool)
    ensures
        side_goals(goals, away, for_away) <= goals.len(),
    decreases goals.len(),
{
    if goals.len() > 0 {
        lemma_side_goals_bound(goals.drop_last(), away, for_away);
    }
}

proof fn lemma_total_push(s: Seq<nat>, x: nat)
    ensures
        total(s.push(x)) == total(s) + x,
{
    assert(s.push(x).drop_last() =~= s);
}

/// How many goals of the bucket count for the chosen side.
fn count_side_goals(p: &PeriodGoals, away: &Option<String>, for_away: bool) -> (n: u64)
    ensures
        n as nat == side_goals(goals_of(*p), opt_text(*away), for_away),
{
    match &p.goals {
        None => 0,
        Some(goals) => {
            let mut n: u64 = 0;
            let mut i: usize = 0;
            while i < goals.len()
                invariant
                    i <= goals@.len(),
                    goals_of(*p) == goals@,
                    n as nat == side_goals(goals@.take(i as int), opt_text(*away), for_away),
                decreases goals@.len() - i,
            {
                let g = &goals[i];
                let same = match (&g.team_abbrev, away) {
                    (Some(a), Some(b)) => crate::text::same_text(a.as_str(), b.as_str()),
                    (None, None) => true,
                    _ => false,
                };
                proof {
                    assert(goals@.take(i + 1).drop_last() =~= goals@.take(i as int));
                    assert(goals@.take(i + 1).last() == g);
                    lemma_side_goals_bound(goals@.take(i as int), opt_text(*away), for_away);
                    assert(same == scored_by_away(*g, opt_text(*away)));
                }
                if same == for_away {
                    n = n + 1;
                }
                i = i + 1;
            }
            assert(goals@.take(i as int) =~= goals@);
            n
        },
    }
}

/// The grid row of one side: goals per period bucket, normalised to the four columns of
/// regulation and overtime when the game has three, four or five buckets, and their sum.
pub fn grid_row(periods: &Vec<PeriodGoals>, away: &Option<String>, for_away: bool) -> (r: GridRow)
    ensures
        row_numbers(r) == grid_row_spec(periods@, opt_text(*away), for_away),
{
    let ghost counts = period_counts(periods@, opt_text(*away), for_away);
    let mut cols: Vec<u128> = Vec::new();
    let mut sum: u128 = 0;
    let mut i: usize = 0;
    while i < periods.len()
        invariant
            i <= periods@.len(),
            counts == period_counts(periods@, opt_text(*away), for_away),
            nats(cols@) == counts.take(i as int),
            forall|q: int| 0 <= q < cols@.len() ==> cols@[q] <= u64::MAX,
            sum as nat == total(counts.take(i as int)),
            sum <= i * (u64::MAX as int),
        decreases periods@.len() - i,
    {
        let c = count_side_goals(&periods[i], away, for_away);
        let ghost old_cols = cols@;
        cols.push(c as u128);
        proof {
            assert(counts.take(i + 1) =~= counts.take(i as int).push(counts[i as int]));
            assert(nats(cols@) =~= nats(old_cols).push(
                c as nat,
            ));
            lemma_total_push(counts.take(i as int), counts[i as int]);
            assert(i * (u64::MAX as int) + (u64::MAX as int) == (i + 1) * (u64::MAX as int)) by (nonlinear_arith);
            assert((i + 1) * (u64::MAX as int) <= (usize::MAX as int) * (u64::MAX as int)) by (nonlinear_arith)
                requires i + 1 <= usize::MAX;
            assert((usize::MAX as int) * (u64::MAX as int) < u128::MAX) by (nonlinear_arith)
                requires usize::MAX <= u64::MAX;
        }
        sum = sum + c as u128;
        i = i + 1;
    }
    assert(counts.take(i as int) =~= counts);
    let ghost before = nats(cols@);
    if cols.len() == 3 {
        cols.push(0);
        proof {
            assert(nats(cols@) =~= before.push(0));
            lemma_total_push(before, 0);
        }
    } else if cols.len() == 5 {
        let shootout = cols[4];
        let overtime = cols[3];
        cols.set(3, overtime + shootout);
        cols.pop();
        proof {
            let b = before;
            assert(nats(cols@) =~= b.take(3).push(b[3] + b[4]));
            assert(b.take(3).push(b[3] + b[4]).drop_last() =~= b.take(3));
            assert(b.drop_last() =~= b.take(3).push(b[3]));
            assert(b.take(3).push(b[3]).drop_last() =~= b.take(3));
            lemma_total_push(b.take(3), b[3] + b[4]);
            lemma_total_push(b.take(3), b[3]);
            lemma_total_push(b.take(3).push(b[3]), b[4]);
            assert(b =~= b.take(3).push(b[3]).push(b[4]));
        }
    }
    GridRow { columns: cols, final_total: sum }
}

/// The summary grid of a game with three, four or five period buckets always has four period
/// columns, and its final column is their sum; a fifth (shootout) bucket's goals are counted
/// in the fourth column.
pub proof fn lemma_grid_has_four_columns(periods: Seq<PeriodGoals>, away: Option<Seq<char>>, for_away: bool)
    requires
        3 <= periods.len() <= 5,
    ensures
        grid_row_spec(periods, away, for_away).0.len() == 4,
        grid_row_spec(periods, away, for_away).1 == total(grid_row_spec(periods, away, for_away).0),
        periods.len() == 5 ==> grid_row_spec(periods, away, for_away).0[3] == period_counts(
            periods,
            away,
            for_away,
        )[3] + period_counts(periods, away, for_away)[4],
        forall|q: int|
            0 <= q < 3 ==> grid_row_spec(periods, away, for_away).0[q] == period_counts(
                periods,
                away,
                for_away,
            )[q],
{
}

/// How the period number reads in a live status: overtime and shootout by name.
pub open spec fn period_text(n: i64) -> Seq<char> {
    if n == 4 {
        "OT"@
    } else if n == 5 {
        "OT/SO"@
    } else {
        int_text(n as int)
    }
}

/// The status line of a game, from its state code and, while live, its period and clock: a
/// live game in an intermission reads `Intermission`, otherwise overtime and the shootout go
/// by name.
pub open spec fn status_text(g: GameDetail) -> Seq<char> {
    let state = text_or(g.game_state, ""@);
    let n = count_or_zero(g.period_number);
    if state == "LIVE"@ {
        let label = if g.in_intermission == Some(true) {
            "Intermission"@
        } else if n == 4 {
            "Overtime"@
        } else if n == 5 {
            "Shootout"@
        } else {
            "Period"@
        };
        label + " "@ + period_text(n) + " - "@ + text_or(g.time_remaining, ""@)
    } else if state == "FINAL"@ || state == "OFF"@ {
        if n == 5 {
            "Final - Shootout"@
        } else if n == 4 {
            "Final - Overtime"@
        } else {
            "Final"@
        }
    } else if state == "PRE"@ {
        "Pre-Game"@
    } else if state == "FUT"@ {
        "Game Scheduled"@
    } else {
        state
    }
}

/// The status line of a game.
pub fn status_line(g: &GameDetail) -> (r: String)
    ensures
        r@ == status_text(*g),
{
    let state = text_or_default(&g.game_state, "");
    let n: i64 = match g.period_number {
        Some(v) => v,
        None => 0,
    };
    if same_text(state.as_str(), "LIVE") {
        let label = if g.in_intermission == Some(true) {
            "Intermission"
        } else if n == 4 {
            "Overtime"
        } else if n == 5 {
            "Shootout"
        } else {
            "Period"
        };
        let mut r = String::from_str(label);
        push_text(&mut r, " ");
        if n == 4 {
            push_text(&mut r, "OT");
        } else if n == 5 {
            push_text(&mut r, "OT/SO");
        } else {
            let t = int_to_text(n);
            push_text(&mut r, t.as_str());
        }
        push_text(&mut r, " - ");
        let clock = text_or_default(&g.time_remaining, "");
        push_text(&mut r, clock.as_str());
        r
    } else if same_text(state.as_str(), "FINAL") || same_text(state.as_str(), "OFF") {
        if n == 5 {
            String::from_str("Final - Shootout")
        } else if n == 4 {
            String::from_str("Final - Overtime")
        } else {
            String::from_str("Final")
        }
    } else if same_text(state.as_str(), "PRE") {
        String::from_str("Pre-Game")
    } else if same_text(state.as_str(), "FUT") {
        String::from_str("Game Scheduled")
    } else {
        state
    }
}

/// The width of the box score.
pub open spec fn box_width() -> nat {
    70
}

/// The title of the box score.
pub open spec fn matchup_text(g: GameDetail) -> Seq<char> {
    text_or(g.away_name, "Unknown"@) + " @ "@ + text_or(g.home_name, "Unknown"@)
}

/// The lines above the scoring summary, with the date heading as given.
pub open spec fn box_header_lines(g: GameDetail, date_line: Seq<char>) -> Seq<Seq<(Seq<char>, Tone)>> {
    seq![
        blank(),
        single(repeat_char('=', box_width()), Tone::Plain),
        single(center(matchup_text(g), box_width()), Tone::Strong),
        single(center(date_line, box_width()), Tone::Plain),
        single(center(status_text(g), box_width()), Tone::Strong),
        single(repeat_char('=', box_width()), Tone::Plain),
    ]
}

/// A number right-justified in a grid cell after one space.
pub open spec fn grid_cell(s: Seq<char>) -> Seq<char> {
    " "@ + pad_left(s, 8)
}

/// The cells of a row of numbers.
pub open spec fn grid_cells(cols: Seq<nat>) -> Seq<char>
    decreases cols.len(),
{
    if cols.len() == 0 {
        Seq::empty()
    } else {
        grid_cells(cols.drop_last()) + grid_cell(digits_of(cols.last()))
    }
}

/// The heading row of the summary grid.
pub open spec fn grid_heading() -> Seq<char> {
    repeat_char(' ', 20) + grid_cell("1st"@) + grid_cell("2nd"@) + grid_cell("3rd"@) + grid_cell(
        "OT"@,
    ) + grid_cell("Final"@)
}

/// One team's row of the summary grid.
pub open spec fn grid_line(name: Seq<char>, row: (Seq<nat>, nat)) -> Seq<char> {
    pad_left(name, 20) + grid_cells(row.0) + grid_cell(digits_of(row.1))
}

/// The label of the play-log section of bucket `k` (counted from 0).
pub open spec fn section_label(k: int) -> Seq<char> {
    if k == 3 {
        "Overtime"@
    } else if k == 4 {
        "Shootout"@
    } else {
        "Period "@ + digits_of((k + 1) as nat)
    }
}

/// A player with a season tally: `First Last (n)`.
pub open spec fn credited(first: Option<String>, last: Option<String>, tally: Option<i64>) -> Seq<char> {
    text_or(first, ""@) + " "@ + text_or(last, ""@) + " ("@ + int_text(count_or_zero(tally) as int) + ")"@
}

/// Texts joined by `, `.
pub open spec fn joined(s: Seq<Seq<char>>) -> Seq<char>
    decreases s.len(),
{
    if s.len() == 0 {
        Seq::empty()
    } else if s.len() == 1 {
        s[0]
    } else {
        joined(s.drop_last()) + ", "@ + s.last()
    }
}

/// The assists of a goal, none where the list is absent.
pub open spec fn assists_of(g: Goal) -> Seq<Assist> {
    match g.assists {
        Some(a) => a@,
        None => Seq::empty(),
    }
}

/// How the assists of a goal read.
pub open spec fn assist_text(g: Goal) -> Seq<char> {
    let a = assists_of(g);
    if a.len() == 0 {
        "Unassisted"@
    } else {
        "Assists: "@ + joined(
            a.map_values(|x: Assist| credited(x.first_name, x.last_name, x.assists_to_date)),
        )
    }
}

/// The play-log line of a goal.
pub open spec fn goal_text(g: Goal) -> Seq<char> {
    text_or(g.time_in_period, "00:00"@) + " "@ + text_or(g.team_abbrev, ""@) + " - "@ + credited(
        g.first_name,
        g.last_name,
        g.goals_to_date,
    ) + " ("@ + assist_text(g) + ")"@
}

/// The line that stands for a period without goals.
pub open spec fn no_goals_text() -> Seq<char> {
    "No goals scored in this period"@
}

/// The lines of the goals of a bucket.
pub open spec fn goal_lines(goals: Seq<Goal>) -> Seq<Seq<(Seq<char>, Tone)>> {
    goals.map_values(|g: Goal| single(goal_text(g), Tone::Plain))
}

/// The play-log section of bucket `k`: a blank line, its label, then its goals or the line
/// that says it had none.
pub open spec fn period_section(k: int, p: PeriodGoals) -> Seq<Seq<(Seq<char>, Tone)>> {
    seq![blank(), single(section_label(k), Tone::Strong)] + if goals_of(p).len() == 0 {
        seq![single(no_goals_text(), Tone::Plain)]
    } else {
        goal_lines(goals_of(p))
    }
}

/// The sections of the play log, one per bucket in the order played.
pub open spec fn play_sections(periods: Seq<PeriodGoals>) -> Seq<Seq<Seq<(Seq<char>, Tone)>>> {
    Seq::new(periods.len(), |k: int| period_section(k, periods[k]))
}

/// The scoring summary and the play log.
pub open spec fn scoring_lines(g: GameDetail) -> Seq<Seq<(Seq<char>, Tone)>> {
    let top = seq![
        blank(),
        single(center("SCORING SUMMARY"@, box_width()), Tone::Strong),
        single(repeat_char('-', box_width()), Tone::Plain),
        single(grid_heading(), Tone::Plain),
    ];
    match g.scoring {
        None => top,
        Some(periods) => top + seq![
            single(
                grid_line(
                    text_or(g.away_name, "Unknown"@),
                    grid_row_spec(periods@, opt_text(g.away_abbrev), true),
                ),
                Tone::Plain,
            ),
            single(
                grid_line(
                    text_or(g.home_name, "Unknown"@),
                    grid_row_spec(periods@, opt_text(g.away_abbrev), false),
                ),
                Tone::Plain,
            ),
            blank(),
            single(center("SCORING PLAYS"@, box_width()), Tone::Strong),
            single(repeat_char('-', box_width()), Tone::Plain),
        ] + concat_lines(play_sections(periods@)),
    }
}

/// The whole box score, with the date heading as given.
pub open spec fn box_score_text(g: GameDetail, date_line: Seq<char>) -> Seq<Seq<(Seq<char>, Tone)>> {
    box_header_lines(g, date_line) + scoring_lines(g)
}

/// The date heading of a game: its date as `Weekday, Month Day`, or the date text as given,
/// or `Unknown Date`.
pub open spec fn game_date_line(g: GameDetail) -> Seq<char> {
    date_heading(text_or(g.game_date, "Unknown Date"@), "%A, %B %d"@)
}

/// A player with a season tally: `First Last (n)`.
fn credited_line(first: &Option<String>, last: &Option<String>, tally: Option<i64>) -> (r: String)
    ensures
        r@ == credited(*first, *last, tally),
{
    let mut r = text_or_default(first, "");
    push_text(&mut r, " ");
    let l = text_or_default(last, "");
    push_text(&mut r, l.as_str());
    push_text(&mut r, " (");
    let n: i64 = match tally {
        Some(v) => v,
        None => 0,
    };
    let t = int_to_text(n);
    push_text(&mut r, t.as_str());
    push_text(&mut r, ")");
    r
}

/// How the assists of a goal read.
fn assist_line(g: &Goal) -> (r: String)
    ensures
        r@ == assist_text(*g),
{
    let empty: Vec<Assist> = Vec::new();
    let list = match &g.assists {
        Some(a) => a,
        None => &empty,
    };
    assert(list@ == assists_of(*g));
    if list.len() == 0 {
        return String::from_str("Unassisted");
    }
    let ghost names = list@.map_values(|x: Assist| credited(x.first_name, x.last_name, x.assists_to_date));
    let mut body = String::new();
    let mut i: usize = 0;
    while i < list.len()
        invariant
            i <= list@.len(),
            names == list@.map_values(|x: Assist| credited(x.first_name, x.last_name, x.assists_to_date)),
            body@ == joined(names.take(i as int)),
        decreases list@.len() - i,
    {
        let a = &list[i];
        let one = credited_line(&a.first_name, &a.last_name, a.assists_to_date);
        if i > 0 {
            push_text(&mut body, ", ");
        }
        push_text(&mut body, one.as_str());
        proof {
            assert(names.take(i + 1).drop_last() =~= names.take(i as int));
            assert(names.take(i + 1).last() == one@);
            if i == 0 {
                assert(body@ =~= names.take(1)[0]);
            }
        }
        i = i + 1;
    }
    assert(names.take(i as int) =~= names);
    let mut r = String::from_str("Assists: ");
    push_text(&mut r, body.as_str());
    r
}

/// The play-log line of a goal.
pub fn goal_line(g: &Goal) -> (r: String)
    ensures
        r@ == goal_text(*g),
{
    let mut r = text_or_default(&g.time_in_period, "00:00");
    push_text(&mut r, " ");
    let team = text_or_default(&g.team_abbrev, "");
    push_text(&mut r, team.as_str());
    push_text(&mut r, " - ");
    let scorer = credited_line(&g.first_name, &g.last_name, g.goals_to_date);
    push_text(&mut r, scorer.as_str());
    push_text(&mut r, " (");
    let assists = assist_line(g);
    push_text(&mut r, assists.as_str());
    push_text(&mut r, ")");
    r
}

/// The label of the play-log section of bucket `k` (counted from 0).
fn section_label_text(k: usize) -> (r: String)
    ensures
        r@ == section_label(k as int),
{
    if k == 3 {
        String::from_str("Overtime")
    } else if k == 4 {
        String::from_str("Shootout")
    } else {
        let mut r = String::from_str("Period ");
        let n = count_to_text(k as u128 + 1);
        push_text(&mut r, n.as_str());
        r
    }
}

/// Appends the play-log section of bucket `k`.
fn push_period_section(out: &mut Vec<Line>, k: usize, p: &PeriodGoals)
    ensures
        lines_view(final(out)@) == lines_view(old(out)@) + period_section(k as int, *p),
{
    push_line(out, Line::blank());
    push_line(out, Line::single(section_label_text(k), Tone::Strong));
    let empty: Vec<Goal> = Vec::new();
    let goals = match &p.goals {
        Some(g) => g,
        None => &empty,
    };
    assert(goals@ == goals_of(*p));
    let ghost start = lines_view(out@);
    if goals.len() == 0 {
        push_line(out, Line::single(String::from_str("No goals scored in this period"), Tone::Plain));
    } else {
        let mut i: usize = 0;
        while i < goals.len()
            invariant
                i <= goals@.len(),
                lines_view(out@) == start + goal_lines(goals@.take(i as int)),
            decreases goals@.len() - i,
        {
            let line = Line::single(goal_line(&goals[i]), Tone::Plain);
            push_line(out, line);
            assert(goal_lines(goals@.take(i + 1)) =~= goal_lines(goals@.take(i as int)).push(
                single(goal_text(goals@[i as int]), Tone::Plain),
            ));
            i = i + 1;
        }
        assert(goals@.take(i as int) =~= goals@);
    }
    assert(lines_view(out@) =~= lines_view(old(out)@) + period_section(k as int, *p));
}

/// One team's row of the summary grid.
fn grid_line_text(name: &str, row: &GridRow) -> (r: String)
    ensures
        r@ == grid_line(name@, row_numbers(*row)),
{
    let mut r = String::new();
    push_padded_left(&mut r, name, 20);
    let ghost cols = nats(row.columns@);
    let mut i: usize = 0;
    while i < row.columns.len()
        invariant
            i <= row.columns@.len(),
            cols == nats(row.columns@),
            r@ == pad_left(name@, 20) + grid_cells(cols.take(i as int)),
        decreases row.columns@.len() - i,
    {
        let c = count_to_text(row.columns[i]);
        push_text(&mut r, " ");
        push_padded_left(&mut r, c.as_str(), 8);
        proof {
            assert(cols.take(i + 1).drop_last() =~= cols.take(i as int));
            assert(cols.take(i + 1).last() == row.columns@[i as int] as nat);
        }
        assert(r@ =~= pad_left(name@, 20) + grid_cells(cols.take(i + 1)));
        i = i + 1;
    }
    assert(cols.take(i as int) =~= cols);
    let t = count_to_text(row.final_total);
    push_text(&mut r, " ");
    push_padded_left(&mut r, t.as_str(), 8);
    assert(r@ =~= grid_line(name@, row_numbers(*row)));
    r
}

/// The heading row of the summary grid.
fn grid_heading_text() -> (r: String)
    ensures
        r@ == grid_heading(),
{
    let mut r = repeated(' ', 20);
    push_text(&mut r, " ");
    push_padded_left(&mut r, "1st", 8);
    push_text(&mut r, " ");
    push_padded_left(&mut r, "2nd", 8);
    push_text(&mut r, " ");
    push_padded_left(&mut r, "3rd", 8);
    push_text(&mut r, " ");
    push_padded_left(&mut r, "OT", 8);
    push_text(&mut r, " ");
    push_padded_left(&mut r, "Final", 8);
    assert(r@ =~= grid_heading());
    r
}

/// The box score of a game with the date heading as given: title, date and status; the
/// goals per period of each side; and every goal, period by period.
pub fn box_score_lines_with_date(g: &GameDetail, date_line: &str) -> (r: Vec<Line>)
    ensures
        lines_view(r@) == box_score_text(*g, date_line@),
{
    let mut out: Vec<Line> = Vec::new();
    let away = text_or_default(&g.away_name, "Unknown");
    let home = text_or_default(&g.home_name, "Unknown");
    let mut title = away.clone();
    push_text(&mut title, " @ ");
    push_text(&mut title, home.as_str());
    push_line(&mut out, Line::blank());
    push_line(&mut out, Line::single(repeated('=', 70), Tone::Plain));
    push_line(&mut out, Line::single(centered(title.as_str(), 70), Tone::Strong));
    push_line(&mut out, Line::single(centered(date_line, 70), Tone::Plain));
    let status = status_line(g);
    push_line(&mut out, Line::single(centered(status.as_str(), 70), Tone::Strong));
    push_line(&mut out, Line::single(repeated('=', 70), Tone::Plain));
    assert(lines_view(out@) =~= box_header_lines(*g, date_line@));
    let ghost head = lines_view(out@);
    push_line(&mut out, Line::blank());
    push_line(&mut out, Line::single(centered("SCORING SUMMARY", 70), Tone::Strong));
    push_line(&mut out, Line::single(repeated('-', 70), Tone::Plain));
    push_line(&mut out, Line::single(grid_heading_text(), Tone::Plain));
    match &g.scoring {
        None => {
            assert(lines_view(out@) =~= box_score_text(*g, date_line@));
        },
        Some(periods) => {
            let away_row = grid_row(periods, &g.away_abbrev, true);
            let home_row = grid_row(periods, &g.away_abbrev, false);
            push_line(&mut out, Line::single(grid_line_text(away.as_str(), &away_row), Tone::Plain));
            push_line(&mut out, Line::single(grid_line_text(home.as_str(), &home_row), Tone::Plain));
            push_line(&mut out, Line::blank());
            push_line(&mut out, Line::single(centered("SCORING PLAYS", 70), Tone::Strong));
            push_line(&mut out, Line::single(repeated('-', 70), Tone::Plain));
            let ghost before = lines_view(out@);
            let ghost sections = play_sections(periods@);
            let mut k: usize = 0;
            while k < periods.len()
                invariant
                    k <= periods@.len(),
                    sections == play_sections(periods@),
                    lines_view(out@) == before + concat_lines(sections.take(k as int)),
                decreases periods@.len() - k,
            {
                push_period_section(&mut out, k, &periods[k]);
                proof {
                    assert(sections.take(k + 1).drop_last() =~= sections.take(k as int));
                    assert(sections.take(k + 1).last() == period_section(k as int, periods@[k as int]));
                }
                assert(lines_view(out@) =~= before + concat_lines(sections.take(k + 1)));
                k = k + 1;
            }
            assert(sections.take(k as int) =~= sections);
            assert(lines_view(out@) =~= box_score_text(*g, date_line@));
        },
    }
    out
}

/// The box score of a game: its date reads as `Weekday, Month Day` where it is a date.
pub fn box_score_lines(g: &GameDetail) -> (r: Vec<Line>)
    ensures
        lines_view(r@) == box_score_text(*g, game_date_line(*g)),
{
    let date = text_or_default(&g.game_date, "Unknown Date");
    let line = heading_for_date(date.as_str(), "%A, %B %d");
    box_score_lines_with_date(g, line.as_str())
}

/// The play log has one section per bucket of the scoring summary, in the order played, each
/// opening with a blank line and the bucket's label; a bucket without goals gives exactly the
/// line that says so and no goal line.
pub proof fn lemma_play_log_sections(periods: Seq<PeriodGoals>)
    ensures
        play_sections(periods).len() == periods.len(),
        forall|k: int|
            0 <= k < periods.len() ==> (#[trigger] play_sections(periods)[k]).take(2) == seq![
                blank(),
                single(section_label(k), Tone::Strong),
            ],
        forall|k: int|
            0 <= k < periods.len() && goals_of(periods[k]).len() == 0 ==> #[trigger] play_sections(
                periods,
            )[k] == seq![blank(), single(section_label(k), Tone::Strong), single(no_goals_text(), Tone::Plain)],
        forall|k: int|
            0 <= k < periods.len() && goals_of(periods[k]).len() > 0 ==> #[trigger] play_sections(
                periods,
            )[k].len() == 2 + goals_of(periods[k]).len(),
{
    assert forall|k: int| 0 <= k < periods.len() implies (#[trigger] play_sections(periods)[k]).take(2)
        == seq![blank(), single(section_label(k), Tone::Strong)] by {
        assert(play_sections(periods)[k].take(2) =~= seq![blank(), single(section_label(k), Tone::Strong)]);
    }
    assert forall|k: int|
        0 <= k < periods.len() && goals_of(periods[k]).len() == 0 implies #[trigger] play_sections(
            periods,
        )[k] == seq![blank(), single(section_label(k), Tone::Strong), single(no_goals_text(), Tone::Plain)] by {
        assert(play_sections(periods)[k] =~= seq![
            blank(),
            single(section_label(k), Tone::Strong),
            single(no_goals_text(), Tone::Plain),
        ]);
    }
}

} // verus!
