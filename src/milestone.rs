use vstd::prelude::*;
use crate::render::{blank, lines_view, push_line, single, Line, Tone};
use crate::text::{count_to_text, digits_of, int_text, push_text};

verus! {

/// The career goal record that a player's tally is measured against.
pub open spec fn goal_record() -> nat {
    894
}

/// The player whose chase of the record is followed.
pub open spec fn chaser_id() -> int {
    8471214
}

/// The message on a chase of the goal record by a player with `goals` career goals.
pub open spec fn chase_text(goals: nat) -> Seq<char> {
    "Ovi has "@ + digits_of(goals) + " goals and needs "@ + digits_of((goal_record() - goals) as nat)
        + " more to tie and "@ + digits_of((goal_record() - goals + 1) as nat)
        + " to beat Gretzky's record of "@ + digits_of(goal_record()) + "."@
}

/// The career goals of the data, 0 where absent.
pub open spec fn goals_or_zero(o: Option<u64>) -> nat {
    match o {
        Some(g) => g as nat,
        None => 0,
    }
}

/// The path of the page of the player whose chase is followed.
pub fn chaser_path() -> (r: String)
    ensures
        r@ == "player/"@ + int_text(chaser_id()) + "/landing"@,
{
    crate::api::player_path(8471214)
}

/// Whether a tally of career goals is at most the record, as the message needs.
pub fn within_record(career_goals: Option<u64>) -> (r: bool)
    ensures
        r == (goals_or_zero(career_goals) <= goal_record()),
{
    match career_goals {
        Some(g) => g <= 894,
        None => true,
    }
}

/// The chase of the goal record: a blank line, the message (emphasised), a blank line.
pub fn chase_lines(career_goals: Option<u64>) -> (r: Vec<Line>)
    requires
        goals_or_zero(career_goals) <= goal_record(),
    ensures
        lines_view(r@) == seq![
            blank(),
            single(chase_text(goals_or_zero(career_goals)), Tone::Highlight),
            blank(),
        ],
{
    let goals: u64 = match career_goals {
        Some(g) => g,
        None => 0,
    };
    let mut m = String::from_str("Ovi has ");
    push_text(&mut m, count_to_text(goals as u128).as_str());
    push_text(&mut m, " goals and needs ");
    push_text(&mut m, count_to_text((894 - goals) as u128).as_str());
    push_text(&mut m, " more to tie and ");
    push_text(&mut m, count_to_text((894 - goals + 1) as u128).as_str());
    push_text(&mut m, " to beat Gretzky's record of ");
    push_text(&mut m, count_to_text(894).as_str());
    push_text(&mut m, ".");
    let mut out: Vec<Line> = Vec::new();
    push_line(&mut out, Line::blank());
    push_line(&mut out, Line::single(m, Tone::Highlight));
    push_line(&mut out, Line::blank());
    assert(lines_view(out@) =~= seq![
        blank(),
        single(chase_text(goals_or_zero(career_goals)), Tone::Highlight),
        blank(),
    ]);
    out
}

} // verus!
