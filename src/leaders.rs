use vstd::prelude::*;
use crate::decimal::{
    compare_numerals, decimal_of, digits_value, fits, fixed, fixed_text, hundredfold,
    lemma_common_scale_compare, numeral_key, numeral_of, pow10,
    opt_numeral, read_decimal, read_numeral, splits_as, times_hundred, Numeral,
};
use crate::ranking::{
    is_ranking, lemma_ranking_non_increasing, lemma_ranking_same_members, listed, rank_by, ranked_before,
};
use crate::render::{blank, line_view, lines_view, push_line, single, Line, Tone};
use crate::text::{
    center, centered, count_to_text, digits_of, lower_of, lowercase, pad_left,
    pad_right, push_padded_left, push_padded_right, push_text, repeat_char, repeated, same_text,
    text_or, text_or_default,
};

verus! {

/// A statistical category that leaders are ranked in.
#[derive(Clone, Copy, PartialEq, Eq, Structural, Debug)]
pub enum LeaderCategory {
    Points,
    Goals,
    Assists,
    TimeOnIce,
    PlusMinus,
    PenaltyMinutes,
    Faceoffs,
    SavePercentage,
    GoalsAgainstAverage,
    Shutouts,
    Wins,
}

/// Which list of leaders a category comes from.
#[derive(Clone, Copy, PartialEq, Eq, Structural, Debug)]
pub enum LeaderSource {
    Skaters,
    Goalies,
}

/// How a category's values are written.
#[derive(Clone, Copy, PartialEq, Eq, Structural, Debug)]
pub enum ValueStyle {
    /// As the number reads.
    Plain,
    /// A fraction as a percentage with two decimals.
    Percent,
    /// Minutes with two decimals.
    Minutes,
}

/// The category a lower-case keyword names.
pub open spec fn category_named(k: Seq<char>) -> Option<LeaderCategory> {
    if k == "points"@ {
        Some(LeaderCategory::Points)
    } else if k == "goals"@ {
        Some(LeaderCategory::Goals)
    } else if k == "assists"@ {
        Some(LeaderCategory::Assists)
    } else if k == "time-on-ice"@ {
        Some(LeaderCategory::TimeOnIce)
    } else if k == "plus-minus"@ {
        Some(LeaderCategory::PlusMinus)
    } else if k == "penalty-minutes"@ {
        Some(LeaderCategory::PenaltyMinutes)
    } else if k == "faceoffs"@ {
        Some(LeaderCategory::Faceoffs)
    } else if k == "save-percentage"@ {
        Some(LeaderCategory::SavePercentage)
    } else if k == "goals-against-average"@ {
        Some(LeaderCategory::GoalsAgainstAverage)
    } else if k == "shutouts"@ {
        Some(LeaderCategory::Shutouts)
    } else if k == "wins"@ {
        Some(LeaderCategory::Wins)
    } else {
        None
    }
}

/// The category a lower-case keyword names, if any.
pub fn category_from_lowered(k: &str) -> (r: Option<LeaderCategory>)
    ensures
        r == category_named(k@),
{
    if same_text(k, "points") {
        Some(LeaderCategory::Points)
    } else if same_text(k, "goals") {
        Some(LeaderCategory::Goals)
    } else if same_text(k, "assists") {
        Some(LeaderCategory::Assists)
    } else if same_text(k, "time-on-ice") {
        Some(LeaderCategory::TimeOnIce)
    } else if same_text(k, "plus-minus") {
        Some(LeaderCategory::PlusMinus)
    } else if same_text(k, "penalty-minutes") {
        Some(LeaderCategory::PenaltyMinutes)
    } else if same_text(k, "faceoffs") {
        Some(LeaderCategory::Faceoffs)
    } else if same_text(k, "save-percentage") {
        Some(LeaderCategory::SavePercentage)
    } else if same_text(k, "goals-against-average") {
        Some(LeaderCategory::GoalsAgainstAverage)
    } else if same_text(k, "shutouts") {
        Some(LeaderCategory::Shutouts)
    } else if same_text(k, "wins") {
        Some(LeaderCategory::Wins)
    } else {
        None
    }
}

/// The category a keyword names, in any letter case.
pub fn parse_category(keyword: &str) -> (r: Option<LeaderCategory>)
    ensures
        r == category_named(lower_of(keyword@)),
{
    let lowered = lowercase(keyword);
    category_from_lowered(lowered.as_str())
}

/// The title of a category's board.
pub open spec fn title_of(c: LeaderCategory) -> Seq<char> {
    match c {
        LeaderCategory::Points => "Player Points Leaders"@,
        LeaderCategory::Goals => "Player Goal Leaders"@,
        LeaderCategory::Assists => "Player Assist Leaders"@,
        LeaderCategory::TimeOnIce => "Player Time On Ice Leaders"@,
        LeaderCategory::PlusMinus => "Player Plus Minus Leaders"@,
        LeaderCategory::PenaltyMinutes => "Player Penalty Minutes Leaders"@,
        LeaderCategory::Faceoffs => "Player Faceoff Leaders"@,
        LeaderCategory::SavePercentage => "Goalie Save Percentage Leaders"@,
        LeaderCategory::GoalsAgainstAverage => "Goalie Goals Against Average Leaders"@,
        LeaderCategory::Shutouts => "Goalie Shutouts Leaders"@,
        LeaderCategory::Wins => "Goalie Wins Leaders"@,
    }
}

/// The field of the data that holds a category's list.
pub open spec fn field_of(c: LeaderCategory) -> Seq<char> {
    match c {
        LeaderCategory::Points => "points"@,
        LeaderCategory::Goals => "goals"@,
        LeaderCategory::Assists => "assists"@,
        LeaderCategory::TimeOnIce => "toi"@,
        LeaderCategory::PlusMinus => "plusMinus"@,
        LeaderCategory::PenaltyMinutes => "penaltyMins"@,
        LeaderCategory::Faceoffs => "faceoffLeaders"@,
        LeaderCategory::SavePercentage => "savePctg"@,
        LeaderCategory::GoalsAgainstAverage => "goalsAgainstAverage"@,
        LeaderCategory::Shutouts => "shutouts"@,
        LeaderCategory::Wins => "wins"@,
    }
}

/// The heading of a category's value column.
pub open spec fn label_of(c: LeaderCategory) -> Seq<char> {
    match c {
        LeaderCategory::Points => "Points"@,
        LeaderCategory::Goals => "Goals"@,
        LeaderCategory::Assists => "Assists"@,
        LeaderCategory::TimeOnIce => "Time On Ice"@,
        LeaderCategory::PlusMinus => "Plus Minus"@,
        LeaderCategory::PenaltyMinutes => "Minutes"@,
        LeaderCategory::Faceoffs => "Faceoffs"@,
        LeaderCategory::SavePercentage => "Save %"@,
        LeaderCategory::GoalsAgainstAverage => "GAA"@,
        LeaderCategory::Shutouts => "Shutouts"@,
        LeaderCategory::Wins => "Wins"@,
    }
}

/// Where a category's leaders come from.
pub open spec fn source_of(c: LeaderCategory) -> LeaderSource {
    match c {
        LeaderCategory::SavePercentage | LeaderCategory::GoalsAgainstAverage | LeaderCategory::Shutouts
        | LeaderCategory::Wins => LeaderSource::Goalies,
        _ => LeaderSource::Skaters,
    }
}

/// How a category's values are written.
pub open spec fn style_of(c: LeaderCategory) -> ValueStyle {
    match c {
        LeaderCategory::SavePercentage => ValueStyle::Percent,
        LeaderCategory::TimeOnIce => ValueStyle::Minutes,
        _ => ValueStyle::Plain,
    }
}

impl LeaderCategory {
    /// The title of the category's board.
    pub fn title(&self) -> (r: &'static str)
        ensures
            r@ == title_of(*self),
    {
        match self {
            LeaderCategory::Points => "Player Points Leaders",
            LeaderCategory::Goals => "Player Goal Leaders",
            LeaderCategory::Assists => "Player Assist Leaders",
            LeaderCategory::TimeOnIce => "Player Time On Ice Leaders",
            LeaderCategory::PlusMinus => "Player Plus Minus Leaders",
            LeaderCategory::PenaltyMinutes => "Player Penalty Minutes Leaders",
            LeaderCategory::Faceoffs => "Player Faceoff Leaders",
            LeaderCategory::SavePercentage => "Goalie Save Percentage Leaders",
            LeaderCategory::GoalsAgainstAverage => "Goalie Goals Against Average Leaders",
            LeaderCategory::Shutouts => "Goalie Shutouts Leaders",
            LeaderCategory::Wins => "Goalie Wins Leaders",
        }
    }

    /// The field of the data that holds the category's list.
    pub fn field(&self) -> (r: &'static str)
        ensures
            r@ == field_of(*self),
    {
        match self {
            LeaderCategory::Points => "points",
            LeaderCategory::Goals => "goals",
            LeaderCategory::Assists => "assists",
            LeaderCategory::TimeOnIce => "toi",
            LeaderCategory::PlusMinus => "plusMinus",
            LeaderCategory::PenaltyMinutes => "penaltyMins",
            LeaderCategory::Faceoffs => "faceoffLeaders",
            LeaderCategory::SavePercentage => "savePctg",
            LeaderCategory::GoalsAgainstAverage => "goalsAgainstAverage",
            LeaderCategory::Shutouts => "shutouts",
            LeaderCategory::Wins => "wins",
        }
    }

    /// The heading of the category's value column.
    pub fn label(&self) -> (r: &'static str)
        ensures
            r@ == label_of(*self),
    {
        match self {
            LeaderCategory::Points => "Points",
            LeaderCategory::Goals => "Goals",
            LeaderCategory::Assists => "Assists",
            LeaderCategory::TimeOnIce => "Time On Ice",
            LeaderCategory::PlusMinus => "Plus Minus",
            LeaderCategory::PenaltyMinutes => "Minutes",
            LeaderCategory::Faceoffs => "Faceoffs",
            LeaderCategory::SavePercentage => "Save %",
            LeaderCategory::GoalsAgainstAverage => "GAA",
            LeaderCategory::Shutouts => "Shutouts",
            LeaderCategory::Wins => "Wins",
        }
    }

    /// Where the category's leaders come from.
    pub fn source(&self) -> (r: LeaderSource)
        ensures
            r == source_of(*self),
    {
        match self {
            LeaderCategory::SavePercentage | LeaderCategory::GoalsAgainstAverage
            | LeaderCategory::Shutouts | LeaderCategory::Wins => LeaderSource::Goalies,
            _ => LeaderSource::Skaters,
        }
    }

    /// How the category's values are written.
    pub fn style(&self) -> (r: ValueStyle)
        ensures
            r == style_of(*self),
    {
        match self {
            LeaderCategory::SavePercentage => ValueStyle::Percent,
            LeaderCategory::TimeOnIce => ValueStyle::Minutes,
            _ => ValueStyle::Plain,
        }
    }
}

/// How a value given as decimal text is written in a style; text that is no decimal is kept
/// as it reads.
pub open spec fn value_text(style: ValueStyle, text: Seq<char>) -> Seq<char> {
    match style {
        ValueStyle::Plain => text,
        ValueStyle::Percent => match decimal_of(text) {
            Some(d) => fixed_text(hundredfold(d), 2) + "%"@,
            None => text + "%"@,
        },
        ValueStyle::Minutes => match decimal_of(text) {
            Some(d) => fixed_text(d, 2) + "m"@,
            None => text + "m"@,
        },
    }
}

/// How a value given as decimal text is written in a style.
pub fn format_value(style: ValueStyle, text: &str) -> (r: String)
    ensures
        r@ == value_text(style, text@),
{
    match style {
        ValueStyle::Plain => String::from_str(text),
        ValueStyle::Percent => {
            let mut r = match read_decimal(text) {
                Some(d) => fixed(times_hundred(d), 2),
                None => String::from_str(text),
            };
            push_text(&mut r, "%");
            r
        },
        ValueStyle::Minutes => {
            let mut r = match read_decimal(text) {
                Some(d) => fixed(d, 2),
                None => String::from_str(text),
            };
            push_text(&mut r, "m");
            r
        },
    }
}

/// One entry of a category's list of leaders.
pub struct LeaderEntry {
    pub first_name: Option<String>,
    pub last_name: Option<String>,
    pub team_name: Option<String>,
    /// The entry's value as decimal text; `0` where absent.
    pub value: Option<String>,
}

/// How many leaders a board shows at most.
pub open spec fn board_size() -> nat {
    20
}

/// The sign and digits of an entry's value (its text, `0` where absent), where it is decimal
/// text.
pub open spec fn entry_numeral(e: LeaderEntry) -> Option<(bool, Seq<char>, Seq<char>)> {
    numeral_of(text_or(e.value, "0"@))
}

/// The largest number of decimals among the entries' values.
pub open spec fn common_scale(entries: Seq<LeaderEntry>) -> nat
    decreases entries.len(),
{
    if entries.len() == 0 {
        0
    } else {
        let m = common_scale(entries.drop_last());
        match entry_numeral(entries.last()) {
            Some(t) => if t.2.len() > m {
                t.2.len()
            } else {
                m
            },
            None => m,
        }
    }
}

/// An entry's value written with `m` decimals, as an integer of any size: `12.5` with two
/// decimals is `1250`.  A value that is no decimal text counts as 0.
pub open spec fn value_key(e: LeaderEntry, m: nat) -> int {
    numeral_key(entry_numeral(e), m)
}

/// The sort keys of the entries: their values, all written with the largest number of
/// decimals among them, so that they compare as the numbers do.
pub open spec fn sort_keys(entries: Seq<LeaderEntry>) -> Seq<int> {
    entries.map_values(|e: LeaderEntry| value_key(e, common_scale(entries)))
}

/// The keys of numerals written with `m` decimals.
pub open spec fn numeral_keys(nums: Seq<Option<Numeral>>, m: nat) -> Seq<int> {
    nums.map_values(|o: Option<Numeral>| numeral_key(opt_numeral(o), m))
}

/// The values of the entries, taken apart, with the largest number of whole digits and of
/// decimals among them.
fn entry_numerals(entries: &Vec<LeaderEntry>) -> (r: (Vec<Option<Numeral>>, usize, usize))
    ensures
        r.0@.len() == entries@.len(),
        forall|i: int| 0 <= i < entries@.len() ==> opt_numeral(#[trigger] r.0@[i]) == entry_numeral(entries@[i]),
        forall|i: int| 0 <= i < entries@.len() ==> fits(#[trigger] r.0@[i], r.1 as nat, r.2 as nat),
        r.2 == common_scale(entries@),
{
    let mut nums: Vec<Option<Numeral>> = Vec::new();
    let mut w: usize = 0;
    let mut m: usize = 0;
    let mut i: usize = 0;
    while i < entries.len()
        invariant
            i <= entries@.len(),
            nums@.len() == i,
            forall|j: int| 0 <= j < i ==> opt_numeral(#[trigger] nums@[j]) == entry_numeral(entries@[j]),
            forall|j: int| 0 <= j < i ==> fits(#[trigger] nums@[j], w as nat, m as nat),
            m == common_scale(entries@.take(i as int)),
        decreases entries@.len() - i,
    {
        let text = text_or_default(&entries[i].value, "0");
        let v = read_numeral(text.as_str());
        proof {
            assert(entries@.take(i + 1).drop_last() =~= entries@.take(i as int));
            assert(entries@.take(i + 1).last() == entries@[i as int]);
            if let Some(n) = &v {
                assert(exists|a: bool, b: Seq<char>, c: Seq<char>| #[trigger] splits_as(text@, a, b, c));
                assert(splits_as(text@, n.negative, n.whole@, n.frac@));
            }
        }
        let ghost old_w = w;
        let ghost old_m = m;
        match &v {
            Some(n) => {
                if n.whole.len() > w {
                    w = n.whole.len();
                }
                if n.frac.len() > m {
                    m = n.frac.len();
                }
            },
            None => {},
        }
        nums.push(v);
        proof {
            assert forall|j: int| 0 <= j < i + 1 implies fits(#[trigger] nums@[j], w as nat, m as nat) by {
                if j < i {
                    assert(fits(nums@[j], old_w as nat, old_m as nat));
                }
            }
        }
        i = i + 1;
    }
    assert(entries@.take(i as int) =~= entries@);
    (nums, w, m)
}
/// The entries shown, given their ranking: the first twenty at most.
pub open spec fn shown(order: Seq<usize>) -> Seq<usize> {
    if order.len() <= board_size() {
        order
    } else {
        order.take(board_size() as int)
    }
}

/// The width of the board.
pub open spec fn board_width() -> nat {
    60
}

/// The row of the entry shown at place `q` (counted from 0).
pub open spec fn leader_row(c: LeaderCategory, q: int, e: LeaderEntry) -> Seq<(Seq<char>, Tone)> {
    seq![
        (
            pad_right(digits_of((q + 1) as nat), 4) + " "@ + pad_right(
                text_or(e.first_name, ""@) + " "@ + text_or(e.last_name, ""@),
                25,
            ) + " "@ + pad_right(text_or(e.team_name, "---"@), 20) + " "@,
            Tone::Plain,
        ),
        (pad_left(value_text(style_of(c), text_or(e.value, "0"@)), 8), Tone::Highlight),
    ]
}

/// The board of a category for the entries, ranked by `order`.
pub open spec fn board_text(c: LeaderCategory, entries: Seq<LeaderEntry>, order: Seq<usize>) -> Seq<Seq<(Seq<char>, Tone)>> {
    seq![
        blank(),
        single(repeat_char('-', board_width()), Tone::Plain),
        single(center(title_of(c), board_width()), Tone::Strong),
        single(repeat_char('-', board_width()), Tone::Plain),
        single(
            pad_right("Rank"@, 4) + " "@ + pad_right("Player"@, 25) + " "@ + pad_right("Team"@, 20) + " "@
                + pad_left(label_of(c), 8),
            Tone::Plain,
        ),
        single(repeat_char('-', board_width()), Tone::Plain),
    ] + Seq::new(shown(order).len(), |q: int| leader_row(c, q, entries[shown(order)[q] as int]))
}

/// The entries ranked by value, highest first, ties in the order given; values are compared
/// exactly, whatever their number of digits.
pub fn leader_order(entries: &Vec<LeaderEntry>) -> (r: Vec<usize>)
    ensures
        is_ranking(sort_keys(entries@), |i: int| 0 <= i < entries@.len(), r@),
{
    let (nums, w, m) = entry_numerals(entries);
    let mut all: Vec<usize> = Vec::new();
    let mut i: usize = 0;
    while i < entries.len()
        invariant
            i <= entries@.len(),
            all@ == Seq::new(i as nat, |j: int| j as usize),
        decreases entries@.len() - i,
    {
        all.push(i);
        i = i + 1;
        assert(all@ =~= Seq::new(i as nat, |j: int| j as usize));
    }
    let before = |a: usize, b: usize| -> (r: bool)
        requires
            (a as int) < nums@.len(),
            (b as int) < nums@.len(),
            forall|i: int| 0 <= i < nums@.len() ==> fits(#[trigger] nums@[i], w as nat, m as nat),
        ensures
            r == ranked_before(numeral_keys(nums@, m as nat), a as int, b as int),
        {
            let c = compare_numerals(&nums[a], &nums[b], w, m);
            c > 0 || (c == 0 && a < b)
        };
    let r = rank_by(Ghost(numeral_keys(nums@, m as nat)), before, &all);
    proof {
        assert(numeral_keys(nums@, m as nat) =~= sort_keys(entries@));
        assert forall|j: int| 0 <= j < entries@.len() implies #[trigger] listed(all@, j) by {
            assert(all@[j] == j as usize);
        }
        lemma_ranking_same_members(sort_keys(entries@), |j: int| listed(all@, j), |j: int| 0 <= j < entries@.len(), r@);
    }
    r
}

/// The row of an entry shown at place `q`.
fn leader_line(c: LeaderCategory, q: usize, e: &LeaderEntry) -> (l: Line)
    requires
        q < 20,
    ensures
        line_view(l) == leader_row(c, q as int, *e),
{
    let mut first = String::new();
    push_padded_right(&mut first, count_to_text(q as u128 + 1).as_str(), 4);
    push_text(&mut first, " ");
    let mut name = text_or_default(&e.first_name, "");
    push_text(&mut name, " ");
    push_text(&mut name, text_or_default(&e.last_name, "").as_str());
    push_padded_right(&mut first, name.as_str(), 25);
    push_text(&mut first, " ");
    push_padded_right(&mut first, text_or_default(&e.team_name, "---").as_str(), 20);
    push_text(&mut first, " ");
    let value = text_or_default(&e.value, "0");
    let shown_value = format_value(c.style(), value.as_str());
    let mut cell = String::new();
    push_padded_left(&mut cell, shown_value.as_str(), 8);
    let mut l = Line::single(first, Tone::Plain);
    l.push(cell, Tone::Highlight);
    assert(line_view(l) =~= leader_row(c, q as int, *e));
    l
}

/// The board of a category: title, column headings, and the first twenty entries ranked by
/// value, each with its rank, name, team and value.
pub fn leader_board(c: LeaderCategory, entries: &Vec<LeaderEntry>) -> (r: Vec<Line>)
    ensures
        exists|order: Seq<usize>|
            is_ranking(sort_keys(entries@), |i: int| 0 <= i < entries@.len(), order) && lines_view(r@)
                == board_text(c, entries@, order),
{
    let order = leader_order(entries);
    let mut out: Vec<Line> = Vec::new();
    push_line(&mut out, Line::blank());
    push_line(&mut out, Line::single(repeated('-', 60), Tone::Plain));
    push_line(&mut out, Line::single(centered(c.title(), 60), Tone::Strong));
    push_line(&mut out, Line::single(repeated('-', 60), Tone::Plain));
    let mut heading = String::new();
    push_padded_right(&mut heading, "Rank", 4);
    push_text(&mut heading, " ");
    push_padded_right(&mut heading, "Player", 25);
    push_text(&mut heading, " ");
    push_padded_right(&mut heading, "Team", 20);
    push_text(&mut heading, " ");
    push_padded_left(&mut heading, c.label(), 8);
    push_line(&mut out, Line::single(heading, Tone::Plain));
    push_line(&mut out, Line::single(repeated('-', 60), Tone::Plain));
    let ghost head = lines_view(out@);
    let count = if order.len() < 20 {
        order.len()
    } else {
        20
    };
    let ghost rows = Seq::new(shown(order@).len(), |q: int| leader_row(c, q, entries@[shown(order@)[q] as int]));
    let mut q: usize = 0;
    while q < count
        invariant
            count == shown(order@).len(),
            count <= 20,
            count <= order@.len(),
            q <= count,
            forall|t: int| 0 <= t < order@.len() ==> (order@[t] as int) < entries@.len(),
            rows == Seq::new(shown(order@).len(), |q: int| leader_row(c, q, entries@[shown(order@)[q] as int])),
            lines_view(out@) == head + rows.take(q as int),
        decreases count - q,
    {
        let e = &entries[order[q]];
        push_line(&mut out, leader_line(c, q, e));
        assert(shown(order@)[q as int] == order@[q as int]);
        assert(rows.take(q + 1) =~= rows.take(q as int).push(rows[q as int]));
        q = q + 1;
    }
    assert(rows.take(q as int) =~= rows);
    assert(lines_view(out@) =~= board_text(c, entries@, order@));
    out
}

/// A board shows at most twenty entries, with the ranks 1, 2, ... in order, their values
/// never increasing down the board, and no entry left off has a greater value than one shown.
pub proof fn lemma_board_order(c: LeaderCategory, entries: Seq<LeaderEntry>, order: Seq<usize>)
    requires
        is_ranking(sort_keys(entries), |i: int| 0 <= i < entries.len(), order),
        entries.len() <= usize::MAX,
    ensures
        shown(order).len() <= board_size(),
        shown(order).len() == if entries.len() <= board_size() {
            entries.len()
        } else {
            board_size()
        },
        board_text(c, entries, order).len() == 6 + shown(order).len(),
        forall|p: int, q: int|
            0 <= p <= q < shown(order).len() ==> sort_keys(entries)[shown(order)[p] as int] >= sort_keys(
                entries,
            )[shown(order)[q] as int],
        forall|q: int|
            0 <= q < shown(order).len() ==> (#[trigger] board_text(c, entries, order)[q + 6])[0].0
                == pad_right(digits_of((q + 1) as nat), 4) + " "@ + pad_right(
                text_or(entries[shown(order)[q] as int].first_name, ""@) + " "@ + text_or(
                    entries[shown(order)[q] as int].last_name,
                    ""@,
                ),
                25,
            ) + " "@ + pad_right(text_or(entries[shown(order)[q] as int].team_name, "---"@), 20) + " "@,
        forall|q: int, i: int|
            0 <= q < shown(order).len() && 0 <= i < entries.len() && !#[trigger] listed(shown(order), i)
                ==> sort_keys(entries)[i] <= #[trigger] sort_keys(entries)[shown(order)[q] as int],
{
    let keys = sort_keys(entries);
    lemma_ranking_non_increasing(keys, |i: int| 0 <= i < entries.len(), order);
    // The ranking lists every entry once, so it is as long as the list of entries.
    let all = Seq::new(entries.len(), |i: int| i as usize);
    assert(order.to_set() =~= all.to_set()) by {
        assert forall|x: usize| order.to_set().contains(x) implies all.to_set().contains(x) by {
            let q = choose|q: int| 0 <= q < order.len() && order[q] == x;
            assert(all[x as int] == x);
        }
        assert forall|x: usize| all.to_set().contains(x) implies order.to_set().contains(x) by {
            let q = choose|q: int| 0 <= q < all.len() && all[q] == x;
            crate::ranking::lemma_ranking_complete(keys, |i: int| 0 <= i < entries.len(), order, q);
        }
    }
    assert(all.no_duplicates());
    order.unique_seq_to_set();
    all.unique_seq_to_set();
    assert forall|q: int, i: int|
        0 <= q < shown(order).len() && 0 <= i < entries.len() && !#[trigger] listed(shown(order), i)
            implies keys[i] <= #[trigger] keys[shown(order)[q] as int] by {
        crate::ranking::lemma_ranking_complete(keys, |i: int| 0 <= i < entries.len(), order, i);
        let t = choose|t: int| 0 <= t < order.len() && order[t] == i as usize;
        if t < shown(order).len() {
            assert(shown(order)[t] == i as usize);
            assert(shown(order).contains(i as usize));
        }
        assert(shown(order)[q] == order[q]);
        assert(keys[order[q] as int] >= keys[order[t] as int]);
    }
}

/// The signed value of the digits of a numeral, without its decimal point.
pub open spec fn signed_digits(t: (bool, Seq<char>, Seq<char>)) -> int {
    if t.0 {
        -(digits_value(t.1 + t.2) as int)
    } else {
        digits_value(t.1 + t.2) as int
    }
}

proof fn lemma_common_scale_bound(entries: Seq<LeaderEntry>)
    ensures
        forall|j: int|
            0 <= j < entries.len() ==> (#[trigger] entry_numeral(entries[j]) matches Some(t) ==> t.2.len()
                <= common_scale(entries)),
    decreases entries.len(),
{
    if entries.len() > 0 {
        let init = entries.drop_last();
        lemma_common_scale_bound(init);
        assert forall|j: int|
            0 <= j < entries.len() implies (#[trigger] entry_numeral(entries[j]) matches Some(t) ==> t.2.len()
                <= common_scale(entries)) by {
            if j < entries.len() - 1 {
                assert(entries[j] == init[j]);
            }
        }
    }
}

/// Sort keys compare as the values do: for two entries whose values are decimal text,
/// `x / 10^a` and `y / 10^b` (signed digits `x`, `y`; `a`, `b` decimals), the first key is at
/// least the second exactly where `x * 10^b >= y * 10^a`.  Values that are no decimal text
/// count as 0.
pub proof fn lemma_sort_keys_compare_as_numbers(entries: Seq<LeaderEntry>, i: int, j: int)
    requires
        0 <= i < entries.len(),
        0 <= j < entries.len(),
        entry_numeral(entries[i]) is Some,
        entry_numeral(entries[j]) is Some,
    ensures
        ({
            let ti = entry_numeral(entries[i])->0;
            let tj = entry_numeral(entries[j])->0;
            (sort_keys(entries)[i] >= sort_keys(entries)[j]) <==> (signed_digits(ti) * pow10(tj.2.len())
                >= signed_digits(tj) * pow10(ti.2.len()))
        }),
{
    let m = common_scale(entries);
    lemma_common_scale_bound(entries);
    let ti = entry_numeral(entries[i])->0;
    let tj = entry_numeral(entries[j])->0;
    let pi = pow10((m - ti.2.len()) as nat);
    let pj = pow10((m - tj.2.len()) as nat);
    let vi = digits_value(ti.1 + ti.2) as int;
    let vj = digits_value(tj.1 + tj.2) as int;
    assert(sort_keys(entries)[i] == value_key(entries[i], m));
    assert(sort_keys(entries)[j] == value_key(entries[j], m));
    assert(-(vi * pi) == (-vi) * pi) by (nonlinear_arith);
    assert(-(vj * pj) == (-vj) * pj) by (nonlinear_arith);
    assert(value_key(entries[i], m) == signed_digits(ti) * pi);
    assert(value_key(entries[j], m) == signed_digits(tj) * pj);
    lemma_common_scale_compare(signed_digits(ti), ti.2.len(), signed_digits(tj), tj.2.len(), m);
}

/// A board is a function of its category and entries: any two rankings of the entries give
/// the same lines.
pub proof fn lemma_board_unique(c: LeaderCategory, entries: Seq<LeaderEntry>, o1: Seq<usize>, o2: Seq<usize>)
    requires
        is_ranking(sort_keys(entries), |i: int| 0 <= i < entries.len(), o1),
        is_ranking(sort_keys(entries), |i: int| 0 <= i < entries.len(), o2),
    ensures
        board_text(c, entries, o1) == board_text(c, entries, o2),
{
    crate::ranking::lemma_ranking_unique(sort_keys(entries), |i: int| 0 <= i < entries.len(), o1, o2);
}

} // verus!
