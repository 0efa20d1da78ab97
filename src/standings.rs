use vstd::prelude::*;
use crate::decimal::{decimal_of, fixed, fixed_text, read_decimal};
use crate::ranking::{wide, is_ranking, lemma_ranking_same_members, listed, rank_indices, ranked_before};
use crate::render::{blank, concat_lines, line_view, lines_view, push_line, single, Line, Tone};
use crate::text::{
    center, centered, count_or_zero, distinct_sorted, int_text, int_to_text, lower_of, lowercase,
    pad_left, pad_right, positions_of, push_padded_left, push_padded_right, push_text, repeat_char,
    repeated, same_text, holds_text, text_before, text_or, text_or_default, texts, upper_of, uppercase,
};

verus! {

/// One team's line of a standings snapshot, as the data source gave it; absent fields stay
/// absent here and take their defaults where they are read.
pub struct TeamStanding {
    pub team_name: Option<String>,
    pub conference_name: Option<String>,
    pub division_name: Option<String>,
    pub games_played: Option<i64>,
    pub wins: Option<i64>,
    pub losses: Option<i64>,
    pub ot_losses: Option<i64>,
    pub points: Option<i64>,
    /// The point percentage as decimal text.
    pub point_pctg: Option<String>,
}

/// Which text of a team groups or identifies it.
#[derive(Clone, Copy, PartialEq, Eq, Structural, Debug)]
pub enum StandingKey {
    Team,
    Conference,
    Division,
}

/// The name that stands for an absent team, conference or division name.
pub open spec fn unknown_name() -> Seq<char> {
    "Unknown"@
}

/// The team's name, conference or division, with the default for an absent one.
pub open spec fn key_of(t: TeamStanding, which: StandingKey) -> Seq<char> {
    match which {
        StandingKey::Team => text_or(t.team_name, unknown_name()),
        StandingKey::Conference => text_or(t.conference_name, unknown_name()),
        StandingKey::Division => text_or(t.division_name, unknown_name()),
    }
}

/// The points of each team, 0 where absent.
pub open spec fn points_of(teams: Seq<TeamStanding>) -> Seq<int> {
    teams.map_values(|t: TeamStanding| count_or_zero(t.points) as int)
}

/// Team `i` has the given text as its key.
pub open spec fn has_key(teams: Seq<TeamStanding>, which: StandingKey, k: Seq<char>, i: int) -> bool {
    0 <= i < teams.len() && key_of(teams[i], which) == k
}

/// `names` holds, each once and in ascending order, exactly the keys that some team has.
pub open spec fn is_key_index(teams: Seq<TeamStanding>, which: StandingKey, names: Seq<Seq<char>>) -> bool {
    &&& forall|p: int, q: int|
        #![trigger names[p], names[q]]
        0 <= p < q < names.len() ==> text_before(names[p], names[q])
    &&& forall|x: Seq<char>|
        names.contains(x) <==> exists|i: int| #[trigger] has_key(teams, which, x, i)
}

/// Division `d` counts as part of conference `c`: the first team listed in `d` is in `c`.
pub open spec fn division_in_conference(teams: Seq<TeamStanding>, d: Seq<char>, c: Seq<char>) -> bool {
    exists|i: int|
        #[trigger] has_key(teams, StandingKey::Division, d, i) && key_of(teams[i], StandingKey::Conference)
            == c && forall|j: int| 0 <= j < i ==> key_of(teams[j], StandingKey::Division) != d
}

/// The teams of one group, ranked by points.
pub struct RankedGroup {
    pub name: String,
    pub order: Vec<usize>,
}

/// The names of the groups, in order.
pub open spec fn group_names(groups: Seq<RankedGroup>) -> Seq<Seq<char>> {
    groups.map_values(|g: RankedGroup| g.name@)
}

/// The groups of a standings snapshot by one key, ascending by name, each ranked by points.
pub open spec fn is_grouping(teams: Seq<TeamStanding>, which: StandingKey, groups: Seq<RankedGroup>) -> bool {
    &&& is_key_index(teams, which, group_names(groups))
    &&& forall|k: int|
        0 <= k < groups.len() ==> is_ranking(
            points_of(teams),
            |i: int| has_key(teams, which, #[trigger] groups[k].name@, i),
            groups[k].order@,
        )
}

/// The names of the conferences of a wild-card layout, in order.
pub open spec fn conference_names(ws: Seq<WildCardConference>) -> Seq<Seq<char>> {
    ws.map_values(|w: WildCardConference| w.name@)
}

/// One conference in the wild-card layout.
pub struct WildCardConference {
    pub name: String,
    /// Its divisions, ascending by name, each with all its teams ranked by points; the first
    /// three of each are the division leaders.
    pub divisions: Vec<RankedGroup>,
    /// The conference's other teams, ranked by points.
    pub wild_card: Vec<usize>,
}

/// How many of a division's ranked teams lead it.
pub open spec fn leader_count(n: nat) -> nat {
    if n < 3 {
        n
    } else {
        3
    }
}

/// `name` belongs to one of the division leaders listed in `divisions`.
pub open spec fn is_leader_name(teams: Seq<TeamStanding>, divisions: Seq<RankedGroup>, name: Seq<char>) -> bool {
    exists|k: int, q: int|
        0 <= k < divisions.len() && 0 <= q < leader_count(divisions[k].order@.len())
            && key_of(teams[#[trigger] divisions[k].order@[q] as int], StandingKey::Team) == name
}

/// Team `i` is in conference `c` and its name is not that of one of the leaders listed.
pub open spec fn in_wild_card(
    teams: Seq<TeamStanding>,
    c: Seq<char>,
    divisions: Seq<RankedGroup>,
    i: int,
) -> bool {
    has_key(teams, StandingKey::Conference, c, i) && !is_leader_name(
        teams,
        divisions,
        key_of(teams[i], StandingKey::Team),
    )
}

/// `w` is the wild-card layout of conference `c`.
pub open spec fn is_wild_card_conference(teams: Seq<TeamStanding>, c: Seq<char>, w: WildCardConference) -> bool {
    &&& w.name@ == c
    &&& forall|p: int, q: int|
        #![trigger w.divisions@[p], w.divisions@[q]]
        0 <= p < q < w.divisions@.len() ==> text_before(w.divisions@[p].name@, w.divisions@[q].name@)
    &&& forall|d: Seq<char>|
        #![trigger group_names(w.divisions@).contains(d)]
        group_names(w.divisions@).contains(d) <==> (exists|i: int|
            #[trigger] has_key(teams, StandingKey::Division, d, i)) && division_in_conference(teams, d, c)
    &&& forall|k: int|
        0 <= k < w.divisions@.len() ==> is_ranking(
            points_of(teams),
            |i: int| has_key(teams, StandingKey::Division, #[trigger] w.divisions@[k].name@, i),
            w.divisions@[k].order@,
        )
    &&& is_ranking(points_of(teams), |i: int| in_wild_card(teams, c, w.divisions@, i), w.wild_card@)
}

/// The key of each team.
pub fn key_column(teams: &Vec<TeamStanding>, which: StandingKey) -> (r: Vec<String>)
    ensures
        r@.len() == teams@.len(),
        forall|i: int| 0 <= i < teams@.len() ==> #[trigger] texts(r@)[i] == key_of(teams@[i], which),
{
    let mut r: Vec<String> = Vec::new();
    let mut i: usize = 0;
    while i < teams.len()
        invariant
            i <= teams@.len(),
            r@.len() == i,
            forall|j: int| 0 <= j < i ==> #[trigger] texts(r@)[j] == key_of(teams@[j], which),
        decreases teams@.len() - i,
    {
        let t = &teams[i];
        let field = match which {
            StandingKey::Team => &t.team_name,
            StandingKey::Conference => &t.conference_name,
            StandingKey::Division => &t.division_name,
        };
        let k = text_or_default(field, "Unknown");
        let ghost old_r = r@;
        r.push(k);
        assert(texts(r@) =~= texts(old_r).push(k@));
        i = i + 1;
    }
    r
}

/// The points of each team, 0 where absent.
pub fn points_column(teams: &Vec<TeamStanding>) -> (r: Vec<i128>)
    ensures
        wide(r@) == points_of(teams@),
        r@.len() == teams@.len(),
{
    let mut r: Vec<i128> = Vec::new();
    let mut i: usize = 0;
    while i < teams.len()
        invariant
            i <= teams@.len(),
            wide(r@) == points_of(teams@).subrange(0, i as int),
            r@.len() == i,
        decreases teams@.len() - i,
    {
        let p: i64 = match teams[i].points {
            Some(v) => v,
            None => 0,
        };
        let ghost before = r@;
        r.push(p as i128);
        assert(wide(r@) =~= wide(before).push(p as int));
        assert(points_of(teams@)[i as int] == p as int);
        i = i + 1;
        assert(wide(r@) =~= points_of(teams@).subrange(0, i as int));
    }
    assert(points_of(teams@).subrange(0, i as int) =~= points_of(teams@));
    assert(wide(r@) =~= points_of(teams@));
    r
}

/// All teams, most points first; teams level on points keep the order of the snapshot.
pub fn league_order(teams: &Vec<TeamStanding>) -> (r: Vec<usize>)
    ensures
        is_ranking(points_of(teams@), |i: int| 0 <= i < teams@.len(), r@),
{
    let points = points_column(teams);
    let mut all: Vec<usize> = Vec::new();
    let mut i: usize = 0;
    while i < teams.len()
        invariant
            i <= teams@.len(),
            all@ == Seq::new(i as nat, |j: int| j as usize),
        decreases teams@.len() - i,
    {
        all.push(i);
        i = i + 1;
        assert(all@ =~= Seq::new(i as nat, |j: int| j as usize));
    }
    let r = rank_indices(&points, &all);
    proof {
        assert forall|j: int| 0 <= j < teams@.len() implies #[trigger] listed(all@, j) by {
            assert(all@[j] == j as usize);
        }
        lemma_ranking_same_members(
            wide(points@),
            |j: int| listed(all@, j),
            |j: int| 0 <= j < teams@.len(),
            r@,
        );
    }
    r
}

proof fn lemma_key_texts(teams: Seq<TeamStanding>, which: StandingKey, keys: Seq<Seq<char>>)
    requires
        keys.len() == teams.len(),
        forall|i: int| 0 <= i < teams.len() ==> #[trigger] keys[i] == key_of(teams[i], which),
    ensures
        forall|x: Seq<char>|
            keys.contains(x) <==> exists|i: int| #[trigger] has_key(teams, which, x, i),
{
    assert forall|x: Seq<char>| keys.contains(x) <==> exists|i: int| #[trigger]
        has_key(teams, which, x, i) by {
        if keys.contains(x) {
            let i = choose|i: int| 0 <= i < keys.len() && keys[i] == x;
            assert(has_key(teams, which, x, i));
        }
        if exists|i: int| #[trigger] has_key(teams, which, x, i) {
            let i = choose|i: int| #[trigger] has_key(teams, which, x, i);
            assert(keys[i] == x);
        }
    }
}

/// The teams whose key is `name`, ranked by points.
fn ranked_group(
    teams: &Vec<TeamStanding>,
    which: StandingKey,
    keys: &Vec<String>,
    points: &Vec<i128>,
    name: &String,
) -> (g: RankedGroup)
    requires
        keys@.len() == teams@.len(),
        forall|i: int| 0 <= i < teams@.len() ==> #[trigger] texts(keys@)[i] == key_of(teams@[i], which),
        wide(points@) == points_of(teams@) && points@.len() == teams@.len(),
    ensures
        g.name@ == name@,
        is_ranking(points_of(teams@), |i: int| has_key(teams@, which, name@, i), g.order@),
{
    let members = positions_of(keys, name.as_str());
    proof {
        assert forall|p: int, q: int| 0 <= p < q < members@.len() implies members@[p] != members@[q] by {
            assert(members@[p] < members@[q]);
        }
    }
    let order = rank_indices(points, &members);
    let n = points.len();
    proof {
        assert forall|i: int| 0 <= i < points@.len() implies #[trigger] listed(members@, i) == has_key(
            teams@,
            which,
            name@,
            i,
        ) by {
            if listed(members@, i) {
                let q = choose|q: int| 0 <= q < members@.len() && members@[q] == i as usize;
                assert(members@[q] as int == i);
                assert(texts(keys@)[members@[q] as int] == name@);
                assert(texts(keys@)[i] == key_of(teams@[i], which));
            }
            if has_key(teams@, which, name@, i) {
                assert(i < n);
                assert(texts(keys@)[i] == name@);
                assert(members@.contains(i as usize));
            }
        }
        lemma_ranking_same_members(
            wide(points@),
            |i: int| listed(members@, i),
            |i: int| has_key(teams@, which, name@, i),
            order@,
        );
    }
    RankedGroup { name: name.clone(), order }
}

/// The snapshot grouped by conference, conferences in ascending order of name, each with its
/// teams ranked by points.
pub fn conference_groups(teams: &Vec<TeamStanding>) -> (r: Vec<RankedGroup>)
    ensures
        is_grouping(teams@, StandingKey::Conference, r@),
{
    let which = StandingKey::Conference;
    let keys = key_column(teams, which);
    let points = points_column(teams);
    let names = distinct_sorted(&keys);
    let mut r: Vec<RankedGroup> = Vec::new();
    let mut k: usize = 0;
    while k < names.len()
        invariant
            k <= names@.len(),
            r@.len() == k,
            keys@.len() == teams@.len(),
            forall|i: int| 0 <= i < teams@.len() ==> #[trigger] texts(keys@)[i] == key_of(teams@[i], which),
            wide(points@) == points_of(teams@) && points@.len() == teams@.len(),
            forall|j: int| 0 <= j < k ==> #[trigger] r@[j].name@ == texts(names@)[j],
            forall|j: int|
                0 <= j < k ==> is_ranking(
                    points_of(teams@),
                    |i: int| has_key(teams@, which, #[trigger] r@[j].name@, i),
                    r@[j].order@,
                ),
        decreases names@.len() - k,
    {
        let g = ranked_group(teams, which, &keys, &points, &names[k]);
        let ghost old_r = r@;
        r.push(g);
        assert(r@[k as int] == g);
        k = k + 1;
    }
    proof {
        let nv = group_names(r@);
        assert(nv =~= texts(names@));
        lemma_key_texts(teams@, which, texts(keys@));
    }
    r
}

/// The columns that the wild-card layout reads, each the matching column of the snapshot.
pub open spec fn columns_match(
    teams: Seq<TeamStanding>,
    conferences: Seq<String>,
    divisions: Seq<String>,
    names: Seq<String>,
    points: Seq<i128>,
) -> bool {
    &&& conferences.len() == teams.len()
    &&& divisions.len() == teams.len()
    &&& names.len() == teams.len()
    &&& wide(points) == points_of(teams)
    &&& points.len() == teams.len()
    &&& forall|i: int|
        0 <= i < teams.len() ==> #[trigger] texts(conferences)[i] == key_of(
            teams[i],
            StandingKey::Conference,
        )
    &&& forall|i: int|
        0 <= i < teams.len() ==> #[trigger] texts(divisions)[i] == key_of(teams[i], StandingKey::Division)
    &&& forall|i: int| 0 <= i < teams.len() ==> #[trigger] texts(names)[i] == key_of(teams[i], StandingKey::Team)
}

/// Appends the names of the first `lead` teams of `order`.
fn push_leader_names(leaders: &mut Vec<String>, order: &Vec<usize>, names: &Vec<String>, lead: usize)
    requires
        lead <= order@.len(),
        forall|q: int| 0 <= q < order@.len() ==> (order@[q] as int) < names@.len(),
    ensures
        forall|x: Seq<char>|
            texts(final(leaders)@).contains(x) <==> (texts(old(leaders)@).contains(x) || exists|t: int|
                0 <= t < lead && #[trigger] texts(names@)[order@[t] as int] == x),
{
    let mut q: usize = 0;
    while q < lead
        invariant
            q <= lead,
            lead <= order@.len(),
            forall|q: int| 0 <= q < order@.len() ==> (order@[q] as int) < names@.len(),
            forall|x: Seq<char>|
                texts(leaders@).contains(x) <==> (texts(old(leaders)@).contains(x) || exists|t: int|
                    0 <= t < q && #[trigger] texts(names@)[order@[t] as int] == x),
        decreases lead - q,
    {
        let m = order[q];
        let ghost before = leaders@;
        leaders.push(names[m].clone());
        proof {
            let bt = texts(before);
            let lt = texts(leaders@);
            assert(lt =~= bt.push(texts(names@)[m as int]));
            assert forall|x: Seq<char>|
                lt.contains(x) <==> (texts(old(leaders)@).contains(x) || exists|t: int|
                    0 <= t < q + 1 && #[trigger] texts(names@)[order@[t] as int] == x) by {
                if lt.contains(x) {
                    let z = choose|z: int| 0 <= z < lt.len() && lt[z] == x;
                    if z < bt.len() {
                        assert(bt[z] == x);
                        assert(bt.contains(x));
                    } else {
                        assert(texts(names@)[order@[q as int] as int] == x);
                    }
                }
                if texts(old(leaders)@).contains(x) {
                    assert(bt.contains(x));
                    let z = choose|z: int| 0 <= z < bt.len() && bt[z] == x;
                    assert(lt[z] == x);
                }
                if exists|t: int| 0 <= t < q + 1 && #[trigger] texts(names@)[order@[t] as int] == x {
                    let t = choose|t: int| 0 <= t < q + 1 && #[trigger] texts(names@)[order@[t] as int] == x;
                    if t < q {
                        assert(bt.contains(x));
                        let z = choose|z: int| 0 <= z < bt.len() && bt[z] == x;
                        assert(lt[z] == x);
                    } else {
                        assert(lt[bt.len() as int] == x);
                    }
                }
            }
        }
        q = q + 1;
    }
}

/// The divisions of conference `c` among the division names `all` (ascending, as the keys of
/// the snapshot), each ranked, and the names of their leaders.
fn division_tables(
    teams: &Vec<TeamStanding>,
    conferences: &Vec<String>,
    divisions: &Vec<String>,
    names: &Vec<String>,
    points: &Vec<i128>,
    all: &Vec<String>,
    c: &String,
) -> (r: (Vec<RankedGroup>, Vec<String>))
    requires
        columns_match(teams@, conferences@, divisions@, names@, points@),
        is_key_index(teams@, StandingKey::Division, texts(all@)),
    ensures
        forall|p: int, q: int|
            #![trigger r.0@[p], r.0@[q]]
            0 <= p < q < r.0@.len() ==> text_before(r.0@[p].name@, r.0@[q].name@),
        forall|d: Seq<char>|
            #![trigger group_names(r.0@).contains(d)]
            group_names(r.0@).contains(d) <==> (exists|i: int|
                #[trigger] has_key(teams@, StandingKey::Division, d, i)) && division_in_conference(
                teams@,
                d,
                c@,
            ),
        forall|k: int|
            0 <= k < r.0@.len() ==> is_ranking(
                points_of(teams@),
                |i: int| has_key(teams@, StandingKey::Division, #[trigger] r.0@[k].name@, i),
                r.0@[k].order@,
            ),
        forall|x: Seq<char>| texts(r.1@).contains(x) <==> is_leader_name(teams@, r.0@, x),
{
    let mut tables: Vec<RankedGroup> = Vec::new();
    let mut leaders: Vec<String> = Vec::new();
    let mut j: usize = 0;
    let ghost mut idxs: Seq<int> = Seq::empty();
    while j < all.len()
        invariant
            j <= all@.len(),
            columns_match(teams@, conferences@, divisions@, names@, points@),
            is_key_index(teams@, StandingKey::Division, texts(all@)),
            idxs.len() == tables@.len(),
            forall|p: int|
                0 <= p < tables@.len() ==> 0 <= #[trigger] idxs[p] < j && texts(all@)[idxs[p]]
                    == tables@[p].name@,
            forall|p: int, q: int|
                #![trigger tables@[p], tables@[q]]
                0 <= p < q < tables@.len() ==> text_before(tables@[p].name@, tables@[q].name@),
            forall|d: Seq<char>|
                group_names(tables@).contains(d) <==> (exists|idx: int|
                    0 <= idx < j && #[trigger] texts(all@)[idx] == d) && division_in_conference(
                    teams@,
                    d,
                    c@,
                ),
            forall|k: int|
                0 <= k < tables@.len() ==> is_ranking(
                    points_of(teams@),
                    |i: int| has_key(teams@, StandingKey::Division, #[trigger] tables@[k].name@, i),
                    tables@[k].order@,
                ),
            forall|x: Seq<char>| texts(leaders@).contains(x) <==> is_leader_name(teams@, tables@, x),
        decreases all@.len() - j,
    {
        let d = &all[j];
        let members = positions_of(divisions, d.as_str());
        proof {
            assert(texts(all@).contains(d@)) by {
                assert(texts(all@)[j as int] == d@);
            }
            let i = choose|i: int| #[trigger] has_key(teams@, StandingKey::Division, d@, i);
            assert(texts(divisions@)[i] == d@);
            assert(members@.contains(i as usize));
        }
        let first = members[0];
        let in_c = same_text(conferences[first].as_str(), c.as_str());
        proof {
            let f = first as int;
            assert(texts(divisions@)[f] == d@);
            assert(texts(conferences@)[f] == key_of(teams@[f], StandingKey::Conference));
            assert(forall|jj: int| 0 <= jj < f ==> key_of(teams@[jj], StandingKey::Division) != d@)
                by {
                assert forall|jj: int| 0 <= jj < f implies key_of(teams@[jj], StandingKey::Division)
                    != d@ by {
                    if key_of(teams@[jj], StandingKey::Division) == d@ {
                        assert(texts(divisions@)[jj] == d@);
                        assert(members@.contains(jj as usize));
                        let q = choose|q: int| 0 <= q < members@.len() && members@[q] == jj as usize;
                        if q > 0 {
                            assert(members@[0] < members@[q]);
                        }
                    }
                }
            }
            if division_in_conference(teams@, d@, c@) {
                let i = choose|i: int|
                    #[trigger] has_key(teams@, StandingKey::Division, d@, i) && key_of(
                        teams@[i],
                        StandingKey::Conference,
                    ) == c@ && forall|jj: int|
                        0 <= jj < i ==> key_of(teams@[jj], StandingKey::Division) != d@;
                if i != f {
                    assert(texts(divisions@)[i] == d@);
                    assert(members@.contains(i as usize));
                    let q = choose|q: int| 0 <= q < members@.len() && members@[q] == i as usize;
                    if q > 0 {
                        assert(members@[0] < members@[q]);
                    }
                    assert(f < i);
                }
            }
            if in_c {
                assert(has_key(teams@, StandingKey::Division, d@, f));
            }
            assert(in_c == division_in_conference(teams@, d@, c@));
        }
        let ghost old_tables = tables@;
        let ghost old_leaders = leaders@;
        if in_c {
            let g = ranked_group(teams, StandingKey::Division, divisions, points, d);
            let lead = if g.order.len() < 3 {
                g.order.len()
            } else {
                3
            };
            let ghost new_tables = old_tables.push(g);
            proof {
                assert(new_tables[old_tables.len() as int] == g);
                assert(lead == leader_count(g.order@.len()));
            }
            push_leader_names(&mut leaders, &g.order, names, lead);
            proof {
                assert forall|x: Seq<char>|
                    texts(leaders@).contains(x) <==> (is_leader_name(teams@, old_tables, x) || exists|
                        t: int,
                    |
                        0 <= t < lead && key_of(teams@[#[trigger] g.order@[t] as int], StandingKey::Team)
                            == x) by {
                    if exists|t: int| 0 <= t < lead && #[trigger] texts(names@)[g.order@[t] as int] == x {
                        let t = choose|t: int| 0 <= t < lead && #[trigger] texts(names@)[g.order@[t] as int] == x;
                        assert(texts(names@)[g.order@[t] as int] == key_of(teams@[g.order@[t] as int], StandingKey::Team));
                    }
                    if exists|t: int|
                        0 <= t < lead && key_of(teams@[#[trigger] g.order@[t] as int], StandingKey::Team) == x {
                        let t = choose|t: int|
                            0 <= t < lead && key_of(teams@[#[trigger] g.order@[t] as int], StandingKey::Team) == x;
                        assert(texts(names@)[g.order@[t] as int] == key_of(teams@[g.order@[t] as int], StandingKey::Team));
                    }
                }
            }
            tables.push(g);
            proof {
                assert(tables@ == new_tables);
                assert forall|x: Seq<char>|
                    texts(leaders@).contains(x) <==> is_leader_name(teams@, tables@, x) by {
                    let k_new = old_tables.len() as int;
                    if is_leader_name(teams@, tables@, x) {
                        let (kk, qq) = choose|kk: int, qq: int|
                            0 <= kk < tables@.len() && 0 <= qq < leader_count(tables@[kk].order@.len())
                                && key_of(teams@[#[trigger] tables@[kk].order@[qq] as int], StandingKey::Team) == x;
                        if kk < k_new {
                            assert(tables@[kk] == old_tables[kk]);
                            assert(is_leader_name(teams@, old_tables, x));
                        } else {
                            assert(tables@[kk] == g);
                            assert(key_of(teams@[#[trigger] g.order@[qq] as int], StandingKey::Team) == x);
                        }
                    }
                    if is_leader_name(teams@, old_tables, x) {
                        let (kk, qq) = choose|kk: int, qq: int|
                            0 <= kk < old_tables.len() && 0 <= qq < leader_count(old_tables[kk].order@.len())
                                && key_of(teams@[#[trigger] old_tables[kk].order@[qq] as int], StandingKey::Team) == x;
                        assert(tables@[kk] == old_tables[kk]);
                        assert(key_of(teams@[tables@[kk].order@[qq] as int], StandingKey::Team) == x);
                    }
                    if exists|t: int|
                        0 <= t < lead && key_of(teams@[#[trigger] g.order@[t] as int], StandingKey::Team) == x {
                        let t = choose|t: int|
                            0 <= t < lead && key_of(teams@[#[trigger] g.order@[t] as int], StandingKey::Team) == x;
                        assert(tables@[k_new] == g);
                        assert(key_of(teams@[tables@[k_new].order@[t] as int], StandingKey::Team) == x);
                    }
                }
                let old_idxs = idxs;
                idxs = idxs.push(j as int);
                assert forall|p: int|
                    0 <= p < tables@.len() implies 0 <= #[trigger] idxs[p] < j + 1 && texts(all@)[idxs[p]]
                        == tables@[p].name@ by {
                    if p < old_tables.len() {
                        assert(tables@[p] == old_tables[p]);
                        assert(idxs[p] == old_idxs[p]);
                    }
                }
                assert forall|p: int, q2: int|
                    #![trigger tables@[p], tables@[q2]]
                    0 <= p < q2 < tables@.len() implies text_before(tables@[p].name@, tables@[q2].name@) by {
                    if q2 == old_tables.len() {
                        assert(tables@[p] == old_tables[p]);
                        assert(idxs[p] == old_idxs[p]);
                        let idx = idxs[p];
                        assert(text_before(texts(all@)[idx], texts(all@)[j as int]));
                    } else {
                        assert(tables@[p] == old_tables[p]);
                        assert(tables@[q2] == old_tables[q2]);
                    }
                }
                assert forall|d2: Seq<char>|
                    group_names(tables@).contains(d2) <==> (exists|idx: int|
                        0 <= idx < j + 1 && #[trigger] texts(all@)[idx] == d2) && division_in_conference(
                        teams@,
                        d2,
                        c@,
                    ) by {
                    let nv = group_names(tables@);
                    let ov = group_names(old_tables);
                    assert(nv =~= ov.push(d@));
                    if nv.contains(d2) && d2 != d@ {
                        let z = choose|z: int| 0 <= z < nv.len() && nv[z] == d2;
                        assert(ov[z] == d2);
                        assert(ov.contains(d2));
                        let idx = choose|idx: int| 0 <= idx < j && #[trigger] texts(all@)[idx] == d2;
                        assert(0 <= idx < j + 1);
                    }
                    if nv.contains(d2) && d2 == d@ {
                        assert(texts(all@)[j as int] == d2);
                    }
                    if (exists|idx: int| 0 <= idx < j + 1 && #[trigger] texts(all@)[idx] == d2)
                        && division_in_conference(teams@, d2, c@) {
                        if d2 == d@ {
                            assert(nv[ov.len() as int] == d2);
                        } else {
                            let idx = choose|idx: int| 0 <= idx < j + 1 && #[trigger] texts(all@)[idx] == d2;
                            assert(idx != j);
                            assert(ov.contains(d2));
                            let z = choose|z: int| 0 <= z < ov.len() && ov[z] == d2;
                            assert(nv[z] == d2);
                        }
                    }
                }
                assert forall|k: int|
                    0 <= k < tables@.len() implies is_ranking(
                        points_of(teams@),
                        |i: int| has_key(teams@, StandingKey::Division, #[trigger] tables@[k].name@, i),
                        tables@[k].order@,
                    ) by {
                    if k < old_tables.len() {
                        assert(tables@[k] == old_tables[k]);
                    }
                }
            }
        } else {
            proof {
                assert forall|d2: Seq<char>|
                    group_names(tables@).contains(d2) <==> (exists|idx: int|
                        0 <= idx < j + 1 && #[trigger] texts(all@)[idx] == d2) && division_in_conference(
                        teams@,
                        d2,
                        c@,
                    ) by {
                    if group_names(tables@).contains(d2) {
                        let idx = choose|idx: int| 0 <= idx < j && #[trigger] texts(all@)[idx] == d2;
                        assert(0 <= idx < j + 1);
                    }
                    if (exists|idx: int| 0 <= idx < j + 1 && #[trigger] texts(all@)[idx] == d2)
                        && division_in_conference(teams@, d2, c@) {
                        let idx = choose|idx: int| 0 <= idx < j + 1 && #[trigger] texts(all@)[idx] == d2;
                        if idx == j {
                            assert(d2 == d@);
                        }
                    }
                }
            }
        }
        j = j + 1;
    }
    proof {
        assert forall|d: Seq<char>|
            #![trigger group_names(tables@).contains(d)]
            group_names(tables@).contains(d) <==> (exists|i: int|
                #[trigger] has_key(teams@, StandingKey::Division, d, i)) && division_in_conference(
                teams@,
                d,
                c@,
            ) by {
            if exists|idx: int| 0 <= idx < all@.len() && #[trigger] texts(all@)[idx] == d {
                let idx = choose|idx: int| 0 <= idx < all@.len() && #[trigger] texts(all@)[idx] == d;
                assert(texts(all@).contains(d));
            }
            if exists|i: int| #[trigger] has_key(teams@, StandingKey::Division, d, i) {
                assert(texts(all@).contains(d));
                let idx = choose|idx: int| 0 <= idx < texts(all@).len() && texts(all@)[idx] == d;
                assert(0 <= idx < all@.len() && texts(all@)[idx] == d);
            }
        }
    }
    (tables, leaders)
}

/// The wild-card layout of conference `c`.
fn wild_card_conference(
    teams: &Vec<TeamStanding>,
    conferences: &Vec<String>,
    divisions: &Vec<String>,
    names: &Vec<String>,
    points: &Vec<i128>,
    all: &Vec<String>,
    c: &String,
) -> (w: WildCardConference)
    requires
        columns_match(teams@, conferences@, divisions@, names@, points@),
        is_key_index(teams@, StandingKey::Division, texts(all@)),
    ensures
        is_wild_card_conference(teams@, c@, w),
{
    let (tables, leaders) = division_tables(teams, conferences, divisions, names, points, all, c);
    let members = positions_of(conferences, c.as_str());
    let mut rest: Vec<usize> = Vec::new();
    let mut q: usize = 0;
    while q < members.len()
        invariant
            q <= members@.len(),
            columns_match(teams@, conferences@, divisions@, names@, points@),
            forall|x: Seq<char>| texts(leaders@).contains(x) <==> is_leader_name(teams@, tables@, x),
            forall|a: int, b: int| #![trigger members@[a], members@[b]] 0 <= a < b < members@.len() ==> members@[a] < members@[b],
            forall|t: int| 0 <= t < members@.len() ==> (members@[t] as int) < conferences@.len(),
            forall|t: int| 0 <= t < members@.len() ==> texts(conferences@)[#[trigger] members@[t] as int] == c@,
            forall|i: int|
                0 <= i < conferences@.len() && texts(conferences@)[i] == c@ ==> #[trigger] members@.contains(i as usize),
            forall|a: int, b: int| #![trigger rest@[a], rest@[b]] 0 <= a < b < rest@.len() ==> rest@[a] < rest@[b],
            q < members@.len() ==> forall|t: int| 0 <= t < rest@.len() ==> #[trigger] rest@[t] < members@[q as int],
            forall|t: int| 0 <= t < rest@.len() ==> in_wild_card(teams@, c@, tables@, #[trigger] rest@[t] as int),
            forall|t: int| 0 <= t < q && in_wild_card(teams@, c@, tables@, #[trigger] members@[t] as int)
                ==> rest@.contains(members@[t]),
        decreases members@.len() - q,
    {
        let m = members[q];
        let ghost mi = m as int;
        proof {
            assert(texts(conferences@)[mi] == c@);
            assert(texts(names@)[mi] == key_of(teams@[mi], StandingKey::Team));
            assert(texts(conferences@)[mi] == key_of(teams@[mi], StandingKey::Conference));
        }
        let is_leader = holds_text(&leaders, names[m].as_str());
        assert(is_leader == !in_wild_card(teams@, c@, tables@, mi));
        let ghost old_rest = rest@;
        if !is_leader {
            rest.push(m);
            proof {
                assert(rest@[old_rest.len() as int] == m);
                assert forall|t: int| 0 <= t < q + 1 && in_wild_card(teams@, c@, tables@, #[trigger] members@[t] as int)
                    implies rest@.contains(members@[t]) by {
                    if t < q {
                        assert(old_rest.contains(members@[t]));
                        let z = choose|z: int| 0 <= z < old_rest.len() && old_rest[z] == members@[t];
                        assert(rest@[z] == members@[t]);
                    } else {
                        assert(rest@[old_rest.len() as int] == members@[t]);
                    }
                }
            }
        }
        proof {
            if q + 1 < members@.len() {
                assert(members@[q as int] < members@[q + 1]);
            }
        }
        q = q + 1;
    }
    let wild_card = rank_indices(points, &rest);
    let n = points.len();
    proof {
        assert forall|i: int| 0 <= i < points@.len() implies #[trigger] listed(rest@, i) == in_wild_card(
            teams@,
            c@,
            tables@,
            i,
        ) by {
            if listed(rest@, i) {
                let z = choose|z: int| 0 <= z < rest@.len() && rest@[z] == i as usize;
                assert(rest@[z] as int == i);
            }
            if in_wild_card(teams@, c@, tables@, i) {
                assert(i < n);
                assert(texts(conferences@)[i] == key_of(teams@[i], StandingKey::Conference));
                assert(members@.contains(i as usize));
                let t = choose|t: int| 0 <= t < members@.len() && members@[t] == i as usize;
                assert(members@[t] as int == i);
            }
        }
        assert forall|a: int, b: int| 0 <= a < b < rest@.len() implies rest@[a] != rest@[b] by {
            assert(rest@[a] < rest@[b]);
        }
        lemma_ranking_same_members(
            wide(points@),
            |i: int| listed(rest@, i),
            |i: int| in_wild_card(teams@, c@, tables@, i),
            wild_card@,
        );
    }
    WildCardConference { name: c.clone(), divisions: tables, wild_card }
}

/// The snapshot in the wild-card layout: conferences in ascending order of name, each with its
/// divisions and the rest of its teams.
pub fn wild_card_groups(teams: &Vec<TeamStanding>) -> (r: Vec<WildCardConference>)
    ensures
        is_key_index(teams@, StandingKey::Conference, conference_names(r@)),
        forall|k: int| 0 <= k < r@.len() ==> is_wild_card_conference(teams@, #[trigger] r@[k].name@, r@[k]),
{
    let conferences = key_column(teams, StandingKey::Conference);
    let divisions = key_column(teams, StandingKey::Division);
    let names = key_column(teams, StandingKey::Team);
    let points = points_column(teams);
    let names_sorted = distinct_sorted(&conferences);
    let all = distinct_sorted(&divisions);
    proof {
        lemma_key_texts(teams@, StandingKey::Conference, texts(conferences@));
        lemma_key_texts(teams@, StandingKey::Division, texts(divisions@));
    }
    let mut r: Vec<WildCardConference> = Vec::new();
    let mut k: usize = 0;
    while k < names_sorted.len()
        invariant
            k <= names_sorted@.len(),
            r@.len() == k,
            columns_match(teams@, conferences@, divisions@, names@, points@),
            is_key_index(teams@, StandingKey::Division, texts(all@)),
            forall|j: int| 0 <= j < k ==> #[trigger] r@[j].name@ == texts(names_sorted@)[j],
            forall|j: int| 0 <= j < k ==> is_wild_card_conference(teams@, #[trigger] r@[j].name@, r@[j]),
        decreases names_sorted@.len() - k,
    {
        let w = wild_card_conference(
            teams,
            &conferences,
            &divisions,
            &names,
            &points,
            &all,
            &names_sorted[k],
        );
        r.push(w);
        assert(r@[k as int] == w);
        k = k + 1;
    }
    assert(conference_names(r@) =~= texts(names_sorted@));
    r
}

/// Teams listed in the same division are listed in the same conference.
pub open spec fn divisions_within_conferences(teams: Seq<TeamStanding>) -> bool {
    forall|i: int, j: int|
        0 <= i < teams.len() && 0 <= j < teams.len() && key_of(teams[i], StandingKey::Division)
            == key_of(teams[j], StandingKey::Division) ==> #[trigger] key_of(teams[i], StandingKey::Conference)
            == #[trigger] key_of(teams[j], StandingKey::Conference)
}

/// No two teams of the snapshot share a name.
pub open spec fn team_names_distinct(teams: Seq<TeamStanding>) -> bool {
    forall|i: int, j: int|
        0 <= i < teams.len() && 0 <= j < teams.len() && i != j ==> #[trigger] key_of(teams[i], StandingKey::Team)
            != #[trigger] key_of(teams[j], StandingKey::Team)
}

/// Team `i` stands at place `q` among the leaders of division `k` of `w`.
pub open spec fn leads_at(w: WildCardConference, k: int, q: int, i: int) -> bool {
    &&& 0 <= k < w.divisions@.len()
    &&& 0 <= q < leader_count(w.divisions@[k].order@.len())
    &&& w.divisions@[k].order@[q] as int == i
}

proof fn lemma_sorted_names_distinct(names: Seq<Seq<char>>, p: int, q: int)
    requires
        forall|a: int, b: int|
            #![trigger names[a], names[b]]
            0 <= a < b < names.len() ==> text_before(names[a], names[b]),
        0 <= p < names.len(),
        0 <= q < names.len(),
        p != q,
    ensures
        names[p] != names[q],
{
    if p < q {
        assert(text_before(names[p], names[q]));
        crate::text::lemma_text_before_irreflexive(names[p]);
    } else {
        assert(text_before(names[q], names[p]));
        crate::text::lemma_text_before_irreflexive(names[q]);
    }
}

/// In the wild-card layout of a snapshot whose divisions each lie in one conference and whose
/// team names are distinct, each team of the conference is printed exactly once: either at one
/// place among the leaders of one division and not in the wild-card list, or in the wild-card
/// list and nowhere among the leaders.  No team of another conference is printed there.
pub proof fn lemma_wild_card_places_each_team_once(
    teams: Seq<TeamStanding>,
    w: WildCardConference,
    i: int,
)
    requires
        divisions_within_conferences(teams),
        team_names_distinct(teams),
        is_wild_card_conference(teams, w.name@, w),
        0 <= i < teams.len(),
        teams.len() <= usize::MAX,
    ensures
        key_of(teams[i], StandingKey::Conference) == w.name@ ==> ((exists|k: int, q: int| leads_at(w, k, q, i))
            != w.wild_card@.contains(i as usize)),
        forall|k1: int, q1: int, k2: int, q2: int|
            leads_at(w, k1, q1, i) && leads_at(w, k2, q2, i) ==> k1 == k2 && q1 == q2,
        key_of(teams[i], StandingKey::Conference) != w.name@ ==> (forall|k: int, q: int|
            !leads_at(w, k, q, i)) && !w.wild_card@.contains(i as usize),
{
    let c = w.name@;
    let points = points_of(teams);
    let divs = w.divisions@;
    // A leader lies in its division, and that division in conference c.
    assert forall|k: int, q: int| leads_at(w, k, q, i) implies key_of(teams[i], StandingKey::Division)
        == divs[k].name@ && key_of(teams[i], StandingKey::Conference) == c by {
        let g = divs[k];
        assert(is_ranking(points, |j: int| has_key(teams, StandingKey::Division, divs[k].name@, j), g.order@));
        assert(has_key(teams, StandingKey::Division, divs[k].name@, g.order@[q] as int));
        assert(group_names(divs)[k] == g.name@);
        assert(group_names(divs).contains(g.name@));
        assert(division_in_conference(teams, g.name@, c));
        let f = choose|f: int|
            #[trigger] has_key(teams, StandingKey::Division, g.name@, f) && key_of(teams[f], StandingKey::Conference)
                == c && forall|j: int| 0 <= j < f ==> key_of(teams[j], StandingKey::Division) != g.name@;
        assert(key_of(teams[i], StandingKey::Conference) == key_of(teams[f], StandingKey::Conference));
    }
    // Leader places are unique.
    assert forall|k1: int, q1: int, k2: int, q2: int|
        leads_at(w, k1, q1, i) && leads_at(w, k2, q2, i) implies k1 == k2 && q1 == q2 by {
        if k1 != k2 {
            lemma_sorted_names_distinct(group_names(divs), k1, k2);
            assert(group_names(divs)[k1] == divs[k1].name@);
            assert(group_names(divs)[k2] == divs[k2].name@);
        } else {
            assert(divs[k1].order@.no_duplicates());
        }
    }
    // Nothing outside the conference is in the wild-card list.
    if w.wild_card@.contains(i as usize) {
        let z = choose|z: int| 0 <= z < w.wild_card@.len() && w.wild_card@[z] == i as usize;
        assert(in_wild_card(teams, c, divs, w.wild_card@[z] as int));
    }
    if key_of(teams[i], StandingKey::Conference) == c {
        let d = key_of(teams[i], StandingKey::Division);
        assert(has_key(teams, StandingKey::Division, d, i));
        // The division of i is listed, by its first team, which is in c.
        let f = lemma_first_in_division(teams, d, i);
        assert(key_of(teams[f], StandingKey::Conference) == c);
        assert(has_key(teams, StandingKey::Division, d, f));
        assert(division_in_conference(teams, d, c));
        assert(group_names(divs).contains(d));
        let k = choose|k: int| 0 <= k < group_names(divs).len() && group_names(divs)[k] == d;
        assert(divs[k].name@ == d);
        let g = divs[k];
        assert(is_ranking(points, |j: int| has_key(teams, StandingKey::Division, divs[k].name@, j), g.order@));
        crate::ranking::lemma_ranking_complete(
            points,
            |j: int| has_key(teams, StandingKey::Division, divs[k].name@, j),
            g.order@,
            i,
        );
        assert(g.order@.contains(i as usize));
        let t = choose|t: int| 0 <= t < g.order@.len() && g.order@[t] == i as usize;
        if t < leader_count(g.order@.len()) {
            assert(leads_at(w, k, t, i));
            assert(is_leader_name(teams, divs, key_of(teams[i], StandingKey::Team)));
        } else {
            assert forall|k2: int, q2: int| !leads_at(w, k2, q2, i) by {
                if leads_at(w, k2, q2, i) {
                    if k2 != k {
                        lemma_sorted_names_distinct(group_names(divs), k, k2);
                        assert(group_names(divs)[k2] == divs[k2].name@);
                    }
                    assert(g.order@.no_duplicates());
                }
            }
            if is_leader_name(teams, divs, key_of(teams[i], StandingKey::Team)) {
                let (k2, q2) = choose|k2: int, q2: int|
                    0 <= k2 < divs.len() && 0 <= q2 < leader_count(divs[k2].order@.len())
                        && key_of(teams[#[trigger] divs[k2].order@[q2] as int], StandingKey::Team)
                        == key_of(teams[i], StandingKey::Team);
                let j = divs[k2].order@[q2] as int;
                assert(is_ranking(points, |x: int| has_key(teams, StandingKey::Division, divs[k2].name@, x), divs[k2].order@));
                assert(j < teams.len());
                assert(leads_at(w, k2, q2, j));
            }
            assert(in_wild_card(teams, c, divs, i));
            crate::ranking::lemma_ranking_complete(
                points,
                |j: int| in_wild_card(teams, c, divs, j),
                w.wild_card@,
                i,
            );
        }
    }
}

proof fn lemma_first_in_division(teams: Seq<TeamStanding>, d: Seq<char>, i: int) -> (f: int)
    requires
        0 <= i < teams.len(),
        key_of(teams[i], StandingKey::Division) == d,
    ensures
        0 <= f <= i,
        key_of(teams[f], StandingKey::Division) == d,
        forall|j: int| 0 <= j < f ==> key_of(teams[j], StandingKey::Division) != d,
    decreases i,
{
    if exists|j: int| 0 <= j < i && key_of(teams[j], StandingKey::Division) == d {
        let j = choose|j: int| 0 <= j < i && key_of(teams[j], StandingKey::Division) == d;
        lemma_first_in_division(teams, d, j)
    } else {
        i
    }
}

/// A layout of the standings.
#[derive(Clone, Copy, PartialEq, Eq, Structural, Debug)]
pub enum StandingsMode {
    /// All teams in one table.
    League,
    /// One table per conference.
    Conference,
    /// Division leaders and the wild-card race of each conference.
    WildCard,
}

/// The layout a lower-case keyword names; `division` is shown as the wild-card layout.
pub open spec fn mode_named(k: Seq<char>) -> Option<StandingsMode> {
    if k == "league"@ {
        Some(StandingsMode::League)
    } else if k == "conference"@ {
        Some(StandingsMode::Conference)
    } else if k == "wildcard"@ || k == "division"@ {
        Some(StandingsMode::WildCard)
    } else {
        None
    }
}

/// The layout a lower-case keyword names.
pub fn mode_from_lowered(k: &str) -> (r: Option<StandingsMode>)
    ensures
        r == mode_named(k@),
{
    if same_text(k, "league") {
        Some(StandingsMode::League)
    } else if same_text(k, "conference") {
        Some(StandingsMode::Conference)
    } else if same_text(k, "wildcard") || same_text(k, "division") {
        Some(StandingsMode::WildCard)
    } else {
        None
    }
}

/// The layout a keyword names, in any letter case.
pub fn parse_mode(keyword: &str) -> (r: Option<StandingsMode>)
    ensures
        r == mode_named(lower_of(keyword@)),
{
    let lowered = lowercase(keyword);
    mode_from_lowered(lowered.as_str())
}

/// The width of the standings.
pub open spec fn standings_width() -> nat {
    52
}

/// The column headings of a standings table.
pub open spec fn table_heading() -> Seq<char> {
    pad_right("Team"@, 22) + " "@ + pad_left("GP"@, 3) + " "@ + pad_left("W"@, 3) + " "@ + pad_left("L"@, 3)
        + " "@ + pad_left("OTL"@, 3) + " "@ + pad_left("PTS"@, 3) + " "@ + pad_left("PCT"@, 6)
}

/// The point percentage with three decimals; text that is no decimal is kept as it reads.
pub open spec fn percentage_text(t: TeamStanding) -> Seq<char> {
    let text = text_or(t.point_pctg, "0"@);
    match decimal_of(text) {
        Some(d) => fixed_text(d, 3),
        None => text,
    }
}

/// The row of a team: name, games, wins, losses, overtime losses, points (emphasised) and
/// point percentage, in fixed-width columns.
pub open spec fn team_row(t: TeamStanding) -> Seq<(Seq<char>, Tone)> {
    seq![
        (
            pad_right(key_of(t, StandingKey::Team), 22) + " "@ + pad_left(int_text(count_or_zero(t.games_played) as int), 3)
                + " "@ + pad_left(int_text(count_or_zero(t.wins) as int), 3) + " "@ + pad_left(
                int_text(count_or_zero(t.losses) as int),
                3,
            ) + " "@ + pad_left(int_text(count_or_zero(t.ot_losses) as int), 3) + " "@,
            Tone::Plain,
        ),
        (pad_left(int_text(count_or_zero(t.points) as int), 3), Tone::Strong),
        (" "@ + pad_left(percentage_text(t), 6), Tone::Plain),
    ]
}

/// The rows of the teams at the given places, in that order.
pub open spec fn rows_of(teams: Seq<TeamStanding>, places: Seq<usize>) -> Seq<Seq<(Seq<char>, Tone)>> {
    Seq::new(places.len(), |q: int| team_row(teams[places[q] as int]))
}

/// The rows of a wild-card list, with a rule after the second team.
pub open spec fn wild_card_rows(teams: Seq<TeamStanding>, places: Seq<usize>) -> Seq<Seq<(Seq<char>, Tone)>> {
    if places.len() <= 2 {
        rows_of(teams, places)
    } else {
        rows_of(teams, places.take(2)) + seq![single(repeat_char('-', standings_width()), Tone::Plain)]
            + rows_of(teams, places.skip(2))
    }
}

/// The opening of a table: a blank line, a rule, the centred title and a rule.
pub open spec fn banner(title: Seq<char>) -> Seq<Seq<(Seq<char>, Tone)>> {
    seq![
        blank(),
        single(repeat_char('-', standings_width()), Tone::Plain),
        single(center(title, standings_width()), Tone::Plain),
        single(repeat_char('-', standings_width()), Tone::Plain),
    ]
}

/// The league table.
pub open spec fn league_text(teams: Seq<TeamStanding>, order: Seq<usize>) -> Seq<Seq<(Seq<char>, Tone)>> {
    banner("NHL STANDINGS"@) + seq![single(table_heading(), Tone::Heading)] + rows_of(teams, order)
}

/// The table of one conference.
pub open spec fn conference_block(teams: Seq<TeamStanding>, g: RankedGroup) -> Seq<Seq<(Seq<char>, Tone)>> {
    banner(upper_of(g.name@)) + seq![single(table_heading(), Tone::Heading)] + rows_of(teams, g.order@)
}

/// The conference tables, one after another.
pub open spec fn conference_text(teams: Seq<TeamStanding>, groups: Seq<RankedGroup>) -> Seq<Seq<(Seq<char>, Tone)>> {
    concat_lines(Seq::new(groups.len(), |k: int| conference_block(teams, groups[k])))
}

/// The leaders of one division: a blank line, `<name> Division`, the headings, the first
/// three teams.
pub open spec fn division_block(teams: Seq<TeamStanding>, g: RankedGroup) -> Seq<Seq<(Seq<char>, Tone)>> {
    seq![
        blank(),
        seq![(g.name@, Tone::Strong), (" "@, Tone::Plain), ("Division"@, Tone::Strong)],
        single(table_heading(), Tone::Heading),
    ] + rows_of(teams, g.order@.take(leader_count(g.order@.len()) as int))
}

/// The wild-card layout of one conference.
pub open spec fn wild_card_block(teams: Seq<TeamStanding>, w: WildCardConference) -> Seq<Seq<(Seq<char>, Tone)>> {
    banner(upper_of(w.name@) + " CONFERENCE"@) + concat_lines(
        Seq::new(w.divisions@.len(), |k: int| division_block(teams, w.divisions@[k])),
    ) + seq![blank(), single("Wild Card"@, Tone::Strong), single(table_heading(), Tone::Heading)]
        + wild_card_rows(teams, w.wild_card@)
}

/// The wild-card layouts of the conferences, one after another.
pub open spec fn wild_card_text(teams: Seq<TeamStanding>, ws: Seq<WildCardConference>) -> Seq<Seq<(Seq<char>, Tone)>> {
    concat_lines(Seq::new(ws.len(), |k: int| wild_card_block(teams, ws[k])))
}

/// The point percentage with three decimals.
fn percentage_line(t: &TeamStanding) -> (r: String)
    ensures
        r@ == percentage_text(*t),
{
    let text = text_or_default(&t.point_pctg, "0");
    match read_decimal(text.as_str()) {
        Some(d) => fixed(d, 3),
        None => text,
    }
}

fn push_count(out: &mut String, o: Option<i64>)
    ensures
        final(out)@ == old(out)@ + " "@ + pad_left(int_text(count_or_zero(o) as int), 3),
{
    let v: i64 = match o {
        Some(v) => v,
        None => 0,
    };
    push_text(out, " ");
    push_padded_left(out, int_to_text(v).as_str(), 3);
    assert(out@ =~= old(out)@ + " "@ + pad_left(int_text(count_or_zero(o) as int), 3));
}

/// The row of a team.
pub fn team_line(t: &TeamStanding) -> (l: Line)
    ensures
        line_view(l) == team_row(*t),
{
    let name = text_or_default(&t.team_name, "Unknown");
    let mut first = String::new();
    push_padded_right(&mut first, name.as_str(), 22);
    push_count(&mut first, t.games_played);
    push_count(&mut first, t.wins);
    push_count(&mut first, t.losses);
    push_count(&mut first, t.ot_losses);
    push_text(&mut first, " ");
    let p: i64 = match t.points {
        Some(v) => v,
        None => 0,
    };
    let mut points = String::new();
    push_padded_left(&mut points, int_to_text(p).as_str(), 3);
    let mut last = String::from_str(" ");
    push_padded_left(&mut last, percentage_line(t).as_str(), 6);
    let mut l = Line::single(first, Tone::Plain);
    l.push(points, Tone::Strong);
    l.push(last, Tone::Plain);
    assert(line_view(l) =~= team_row(*t));
    l
}

/// The column headings of a standings table.
fn table_heading_line() -> (l: Line)
    ensures
        line_view(l) == single(table_heading(), Tone::Heading),
{
    let mut h = String::new();
    push_padded_right(&mut h, "Team", 22);
    push_text(&mut h, " ");
    push_padded_left(&mut h, "GP", 3);
    push_text(&mut h, " ");
    push_padded_left(&mut h, "W", 3);
    push_text(&mut h, " ");
    push_padded_left(&mut h, "L", 3);
    push_text(&mut h, " ");
    push_padded_left(&mut h, "OTL", 3);
    push_text(&mut h, " ");
    push_padded_left(&mut h, "PTS", 3);
    push_text(&mut h, " ");
    push_padded_left(&mut h, "PCT", 6);
    assert(h@ =~= table_heading());
    Line::single(h, Tone::Heading)
}

/// Appends the rows of the teams at places `from..to` of `places`.
fn push_rows(out: &mut Vec<Line>, teams: &Vec<TeamStanding>, places: &Vec<usize>, from: usize, to: usize)
    requires
        from <= to <= places@.len(),
        forall|q: int| 0 <= q < places@.len() ==> (places@[q] as int) < teams@.len(),
    ensures
        lines_view(final(out)@) == lines_view(old(out)@) + rows_of(teams@, places@.subrange(from as int, to as int)),
{
    let ghost start = lines_view(out@);
    let mut q = from;
    while q < to
        invariant
            from <= q <= to <= places@.len(),
            forall|q: int| 0 <= q < places@.len() ==> (places@[q] as int) < teams@.len(),
            lines_view(out@) == start + rows_of(teams@, places@.subrange(from as int, q as int)),
        decreases to - q,
    {
        push_line(out, team_line(&teams[places[q]]));
        assert(rows_of(teams@, places@.subrange(from as int, q + 1)) =~= rows_of(
            teams@,
            places@.subrange(from as int, q as int),
        ).push(team_row(teams@[places@[q as int] as int])));
        q = q + 1;
    }
}

/// Appends a banner with its title.
fn push_banner(out: &mut Vec<Line>, title: &str)
    ensures
        lines_view(final(out)@) == lines_view(old(out)@) + banner(title@),
{
    push_line(out, Line::blank());
    push_line(out, Line::single(repeated('-', 52), Tone::Plain));
    push_line(out, Line::single(centered(title, 52), Tone::Plain));
    push_line(out, Line::single(repeated('-', 52), Tone::Plain));
    assert(lines_view(out@) =~= lines_view(old(out)@) + banner(title@));
}

/// The league table: every team, most points first, ties in the order of the snapshot.
pub fn league_lines(teams: &Vec<TeamStanding>) -> (r: Vec<Line>)
    ensures
        exists|order: Seq<usize>|
            is_ranking(points_of(teams@), |i: int| 0 <= i < teams@.len(), order) && lines_view(r@)
                == league_text(teams@, order),
{
    let order = league_order(teams);
    let mut out: Vec<Line> = Vec::new();
    push_banner(&mut out, "NHL STANDINGS");
    push_line(&mut out, table_heading_line());
    push_rows(&mut out, teams, &order, 0, order.len());
    assert(order@.subrange(0, order@.len() as int) =~= order@);
    assert(lines_view(out@) =~= league_text(teams@, order@));
    out
}

/// The conference tables: conferences in ascending order of name, each with its teams, most
/// points first.
pub fn conference_lines(teams: &Vec<TeamStanding>) -> (r: Vec<Line>)
    ensures
        exists|groups: Seq<RankedGroup>|
            is_grouping(teams@, StandingKey::Conference, groups) && lines_view(r@) == conference_text(teams@, groups),
{
    let groups = conference_groups(teams);
    let ghost blocks = Seq::new(groups@.len(), |k: int| conference_block(teams@, groups@[k]));
    let mut out: Vec<Line> = Vec::new();
    let mut k: usize = 0;
    while k < groups.len()
        invariant
            k <= groups@.len(),
            is_grouping(teams@, StandingKey::Conference, groups@),
            blocks == Seq::new(groups@.len(), |k: int| conference_block(teams@, groups@[k])),
            lines_view(out@) == concat_lines(blocks.take(k as int)),
        decreases groups@.len() - k,
    {
        let g = &groups[k];
        let ghost before = lines_view(out@);
        let title = uppercase(g.name.as_str());
        push_banner(&mut out, title.as_str());
        push_line(&mut out, table_heading_line());
        proof {
            assert(is_ranking(points_of(teams@), |i: int| has_key(teams@, StandingKey::Conference, groups@[k as int].name@, i), g.order@));
        }
        push_rows(&mut out, teams, &g.order, 0, g.order.len());
        proof {
            assert(g.order@.subrange(0, g.order@.len() as int) =~= g.order@);
            assert(blocks.take(k + 1).drop_last() =~= blocks.take(k as int));
            assert(lines_view(out@) =~= before + conference_block(teams@, *g));
        }
        k = k + 1;
    }
    assert(blocks.take(k as int) =~= blocks);
    assert(Seq::new(groups@.len(), |k: int| conference_block(teams@, groups@[k])) =~= blocks);
    assert(lines_view(out@) == conference_text(teams@, groups@));
    out
}

/// Appends the leaders of one division.
fn push_division_block(out: &mut Vec<Line>, teams: &Vec<TeamStanding>, g: &RankedGroup)
    requires
        forall|q: int| 0 <= q < g.order@.len() ==> (g.order@[q] as int) < teams@.len(),
    ensures
        lines_view(final(out)@) == lines_view(old(out)@) + division_block(teams@, *g),
{
    push_line(out, Line::blank());
    let mut heading = Line::single(g.name.clone(), Tone::Strong);
    heading.push(String::from_str(" "), Tone::Plain);
    heading.push(String::from_str("Division"), Tone::Strong);
    assert(line_view(heading) =~= seq![(g.name@, Tone::Strong), (" "@, Tone::Plain), ("Division"@, Tone::Strong)]);
    push_line(out, heading);
    push_line(out, table_heading_line());
    let lead = if g.order.len() < 3 {
        g.order.len()
    } else {
        3
    };
    push_rows(out, teams, &g.order, 0, lead);
    assert(g.order@.subrange(0, lead as int) =~= g.order@.take(leader_count(g.order@.len()) as int));
    assert(lines_view(out@) =~= lines_view(old(out)@) + division_block(teams@, *g));
}

proof fn lemma_wild_card_bounds(teams: Seq<TeamStanding>, c: Seq<char>, w: WildCardConference)
    requires
        is_wild_card_conference(teams, c, w),
    ensures
        forall|k: int, q: int|
            0 <= k < w.divisions@.len() && 0 <= q < w.divisions@[k].order@.len() ==> (#[trigger] w.divisions@[k].order@[q] as int)
                < teams.len(),
        forall|q: int| 0 <= q < w.wild_card@.len() ==> (w.wild_card@[q] as int) < teams.len(),
{
    assert forall|kk: int, q: int|
        0 <= kk < w.divisions@.len() && 0 <= q < w.divisions@[kk].order@.len() implies (#[trigger] w.divisions@[kk].order@[q] as int)
            < teams.len() by {
        assert(is_ranking(
            points_of(teams),
            |i: int| has_key(teams, StandingKey::Division, w.divisions@[kk].name@, i),
            w.divisions@[kk].order@,
        ));
    }
}

/// Appends the wild-card layout of one conference.
fn push_wild_card_block(out: &mut Vec<Line>, teams: &Vec<TeamStanding>, w: &WildCardConference)
    requires
        forall|k: int, q: int|
            0 <= k < w.divisions@.len() && 0 <= q < w.divisions@[k].order@.len() ==> (#[trigger] w.divisions@[k].order@[q] as int)
                < teams@.len(),
        forall|q: int| 0 <= q < w.wild_card@.len() ==> (w.wild_card@[q] as int) < teams@.len(),
    ensures
        lines_view(final(out)@) == lines_view(old(out)@) + wild_card_block(teams@, *w),
{
    let mut title = uppercase(w.name.as_str());
    push_text(&mut title, " CONFERENCE");
    push_banner(out, title.as_str());
    let ghost after_banner = lines_view(out@);
    let ghost blocks = Seq::new(w.divisions@.len(), |k: int| division_block(teams@, w.divisions@[k]));
    let mut k: usize = 0;
    while k < w.divisions.len()
        invariant
            k <= w.divisions@.len(),
            forall|k: int, q: int|
                0 <= k < w.divisions@.len() && 0 <= q < w.divisions@[k].order@.len() ==> (#[trigger] w.divisions@[k].order@[q] as int)
                    < teams@.len(),
            blocks == Seq::new(w.divisions@.len(), |k: int| division_block(teams@, w.divisions@[k])),
            lines_view(out@) == after_banner + concat_lines(blocks.take(k as int)),
        decreases w.divisions@.len() - k,
    {
        push_division_block(out, teams, &w.divisions[k]);
        assert(blocks.take(k + 1).drop_last() =~= blocks.take(k as int));
        k = k + 1;
    }
    assert(blocks.take(k as int) =~= blocks);
    let ghost after_divisions = lines_view(out@);
    push_line(out, Line::blank());
    push_line(out, Line::single(String::from_str("Wild Card"), Tone::Strong));
    push_line(out, table_heading_line());
    let ghost after_heading = lines_view(out@);
    let n = w.wild_card.len();
    if n <= 2 {
        push_rows(out, teams, &w.wild_card, 0, n);
        assert(w.wild_card@.subrange(0, n as int) =~= w.wild_card@);
    } else {
        push_rows(out, teams, &w.wild_card, 0, 2);
        push_line(out, Line::single(repeated('-', 52), Tone::Plain));
        push_rows(out, teams, &w.wild_card, 2, n);
        assert(w.wild_card@.subrange(0, 2) =~= w.wild_card@.take(2));
        assert(w.wild_card@.subrange(2, n as int) =~= w.wild_card@.skip(2));
    }
    assert(Seq::new(w.divisions@.len(), |k: int| division_block(teams@, w.divisions@[k])) =~= blocks);
    assert(lines_view(out@) =~= lines_view(old(out)@) + wild_card_block(teams@, *w));
}

/// The wild-card layout: conferences in ascending order of name; in each, the first three
/// teams of each of its divisions, then the rest of its teams, most points first, with a rule
/// after the second.
pub fn wild_card_lines(teams: &Vec<TeamStanding>) -> (r: Vec<Line>)
    ensures
        exists|ws: Seq<WildCardConference>|
            is_key_index(teams@, StandingKey::Conference, conference_names(ws))
                && (forall|k: int| 0 <= k < ws.len() ==> is_wild_card_conference(teams@, #[trigger] ws[k].name@, ws[k]))
                && lines_view(r@) == wild_card_text(teams@, ws),
{
    let ws = wild_card_groups(teams);
    let ghost blocks = Seq::new(ws@.len(), |k: int| wild_card_block(teams@, ws@[k]));
    let mut out: Vec<Line> = Vec::new();
    let mut k: usize = 0;
    while k < ws.len()
        invariant
            k <= ws@.len(),
            forall|k: int| 0 <= k < ws@.len() ==> is_wild_card_conference(teams@, #[trigger] ws@[k].name@, ws@[k]),
            blocks == Seq::new(ws@.len(), |k: int| wild_card_block(teams@, ws@[k])),
            lines_view(out@) == concat_lines(blocks.take(k as int)),
        decreases ws@.len() - k,
    {
        let w = &ws[k];
        proof {
            lemma_wild_card_bounds(teams@, ws@[k as int].name@, ws@[k as int]);
        }
        push_wild_card_block(&mut out, teams, w);
        assert(blocks.take(k + 1).drop_last() =~= blocks.take(k as int));
        k = k + 1;
    }
    assert(blocks.take(k as int) =~= blocks);
    assert(Seq::new(ws@.len(), |k: int| wild_card_block(teams@, ws@[k])) =~= blocks);
    assert(is_key_index(teams@, StandingKey::Conference, conference_names(ws@))
        && (forall|k: int| 0 <= k < ws@.len() ==> is_wild_card_conference(teams@, #[trigger] ws@[k].name@, ws@[k]))
        && lines_view(out@) == wild_card_text(teams@, ws@));
    out
}

/// The standings in a layout.
pub open spec fn standings_text_is(mode: StandingsMode, teams: Seq<TeamStanding>, lines: Seq<Seq<(Seq<char>, Tone)>>) -> bool {
    match mode {
        StandingsMode::League => exists|order: Seq<usize>|
            is_ranking(points_of(teams), |i: int| 0 <= i < teams.len(), order) && lines == league_text(teams, order),
        StandingsMode::Conference => exists|groups: Seq<RankedGroup>|
            is_grouping(teams, StandingKey::Conference, groups) && lines == conference_text(teams, groups),
        StandingsMode::WildCard => exists|ws: Seq<WildCardConference>|
            is_key_index(teams, StandingKey::Conference, conference_names(ws))
                && (forall|k: int| 0 <= k < ws.len() ==> is_wild_card_conference(teams, #[trigger] ws[k].name@, ws[k]))
                && lines == wild_card_text(teams, ws),
    }
}

/// The standings in a layout.
pub fn standings_lines(mode: StandingsMode, teams: &Vec<TeamStanding>) -> (r: Vec<Line>)
    ensures
        standings_text_is(mode, teams@, lines_view(r@)),
{
    match mode {
        StandingsMode::League => league_lines(teams),
        StandingsMode::Conference => conference_lines(teams),
        StandingsMode::WildCard => wild_card_lines(teams),
    }
}

proof fn lemma_sorted_names_agree_below(a: Seq<Seq<char>>, b: Seq<Seq<char>>, k: int)
    requires
        forall|p: int, q: int| #![trigger a[p], a[q]] 0 <= p < q < a.len() ==> text_before(a[p], a[q]),
        forall|p: int, q: int| #![trigger b[p], b[q]] 0 <= p < q < b.len() ==> text_before(b[p], b[q]),
        forall|x: Seq<char>| a.contains(x) <==> b.contains(x),
        a.len() == b.len(),
        0 <= k <= a.len(),
    ensures
        forall|p: int| 0 <= p < k ==> a[p] == b[p],
    decreases k,
{
    if k > 0 {
        lemma_sorted_names_agree_below(a, b, k - 1);
        let p = k - 1;
        let x = a[p];
        let y = b[p];
        if x != y {
            assert(a.contains(x));
            assert(b.contains(y));
            let q = choose|q: int| 0 <= q < b.len() && b[q] == x;
            let q2 = choose|q2: int| 0 <= q2 < a.len() && a[q2] == y;
            if q < p {
                assert(a[q] == b[q]);
                lemma_sorted_names_distinct(a, q, p);
            }
            if q2 < p {
                assert(a[q2] == b[q2]);
                lemma_sorted_names_distinct(b, q2, p);
            }
            assert(text_before(b[p], b[q]));
            assert(text_before(a[p], a[q2]));
            crate::text::lemma_text_before_transitive(x, y, x);
            crate::text::lemma_text_before_irreflexive(x);
        }
    }
}

/// Two ascending lists of the same distinct names are equal.
proof fn lemma_sorted_names_unique(a: Seq<Seq<char>>, b: Seq<Seq<char>>)
    requires
        forall|p: int, q: int| #![trigger a[p], a[q]] 0 <= p < q < a.len() ==> text_before(a[p], a[q]),
        forall|p: int, q: int| #![trigger b[p], b[q]] 0 <= p < q < b.len() ==> text_before(b[p], b[q]),
        forall|x: Seq<char>| a.contains(x) <==> b.contains(x),
    ensures
        a == b,
{
    assert(a.no_duplicates()) by {
        assert forall|p: int, q: int| 0 <= p < a.len() && 0 <= q < a.len() && p != q implies a[p] != a[q] by {
            lemma_sorted_names_distinct(a, p, q);
        }
    }
    assert(b.no_duplicates()) by {
        assert forall|p: int, q: int| 0 <= p < b.len() && 0 <= q < b.len() && p != q implies b[p] != b[q] by {
            lemma_sorted_names_distinct(b, p, q);
        }
    }
    assert(a.to_set() =~= b.to_set());
    a.unique_seq_to_set();
    b.unique_seq_to_set();
    lemma_sorted_names_agree_below(a, b, a.len() as int);
    assert(a =~= b);
}

proof fn lemma_wild_card_blocks_agree(teams: Seq<TeamStanding>, c: Seq<char>, w1: WildCardConference, w2: WildCardConference)
    requires
        is_wild_card_conference(teams, c, w1),
        is_wild_card_conference(teams, c, w2),
    ensures
        wild_card_block(teams, w1) == wild_card_block(teams, w2),
{
    let d1 = w1.divisions@;
    let d2 = w2.divisions@;
    let n1 = group_names(d1);
    let n2 = group_names(d2);
    assert forall|p: int, q: int| #![trigger n1[p], n1[q]] 0 <= p < q < n1.len() implies text_before(n1[p], n1[q]) by {
        assert(text_before(d1[p].name@, d1[q].name@));
    }
    assert forall|p: int, q: int| #![trigger n2[p], n2[q]] 0 <= p < q < n2.len() implies text_before(n2[p], n2[q]) by {
        assert(text_before(d2[p].name@, d2[q].name@));
    }
    assert forall|x: Seq<char>| n1.contains(x) <==> n2.contains(x) by {
        assert(group_names(w1.divisions@).contains(x) == group_names(w2.divisions@).contains(x));
    }
    lemma_sorted_names_unique(n1, n2);
    assert forall|k: int| 0 <= k < d1.len() implies d1[k].name@ == d2[k].name@ && d1[k].order@ == d2[k].order@ by {
        assert(n1[k] == d1[k].name@);
        assert(n2[k] == d2[k].name@);
        crate::ranking::lemma_ranking_unique(
            points_of(teams),
            |i: int| has_key(teams, StandingKey::Division, d1[k].name@, i),
            d1[k].order@,
            d2[k].order@,
        );
    }
    assert forall|i: int| 0 <= i < points_of(teams).len() implies #[trigger] in_wild_card(teams, c, d1, i) == in_wild_card(teams, c, d2, i) by {
        let x = key_of(teams[i], StandingKey::Team);
        if is_leader_name(teams, d1, x) {
            let (k, q) = choose|k: int, q: int|
                0 <= k < d1.len() && 0 <= q < leader_count(d1[k].order@.len())
                    && key_of(teams[#[trigger] d1[k].order@[q] as int], StandingKey::Team) == x;
            assert(key_of(teams[d2[k].order@[q] as int], StandingKey::Team) == x);
        }
        if is_leader_name(teams, d2, x) {
            let (k, q) = choose|k: int, q: int|
                0 <= k < d2.len() && 0 <= q < leader_count(d2[k].order@.len())
                    && key_of(teams[#[trigger] d2[k].order@[q] as int], StandingKey::Team) == x;
            assert(key_of(teams[d1[k].order@[q] as int], StandingKey::Team) == x);
        }
    }
    lemma_ranking_same_members(points_of(teams), |i: int| in_wild_card(teams, c, d2, i), |i: int| in_wild_card(teams, c, d1, i), w2.wild_card@);
    crate::ranking::lemma_ranking_unique(points_of(teams), |i: int| in_wild_card(teams, c, d1, i), w1.wild_card@, w2.wild_card@);
    assert(Seq::new(d1.len(), |k: int| division_block(teams, d1[k])) =~= Seq::new(d2.len(), |k: int| division_block(teams, d2[k])));
}

/// A view of the standings is a function of the snapshot: whatever groupings the layout was
/// built from, the same snapshot in the same layout gives the same lines.
#[verifier::rlimit(60)]
pub proof fn lemma_standings_view_unique(
    mode: StandingsMode,
    teams: Seq<TeamStanding>,
    l1: Seq<Seq<(Seq<char>, Tone)>>,
    l2: Seq<Seq<(Seq<char>, Tone)>>,
)
    requires
        standings_text_is(mode, teams, l1),
        standings_text_is(mode, teams, l2),
    ensures
        l1 == l2,
{
    match mode {
        StandingsMode::League => {
            let o1 = choose|order: Seq<usize>|
                is_ranking(points_of(teams), |i: int| 0 <= i < teams.len(), order) && l1 == league_text(teams, order);
            let o2 = choose|order: Seq<usize>|
                is_ranking(points_of(teams), |i: int| 0 <= i < teams.len(), order) && l2 == league_text(teams, order);
            crate::ranking::lemma_ranking_unique(points_of(teams), |i: int| 0 <= i < teams.len(), o1, o2);
        },
        StandingsMode::Conference => {
            let g1 = choose|groups: Seq<RankedGroup>|
                is_grouping(teams, StandingKey::Conference, groups) && l1 == conference_text(teams, groups);
            let g2 = choose|groups: Seq<RankedGroup>|
                is_grouping(teams, StandingKey::Conference, groups) && l2 == conference_text(teams, groups);
            let n1 = group_names(g1);
            let n2 = group_names(g2);
            assert forall|x: Seq<char>| n1.contains(x) <==> n2.contains(x) by {
                assert(n1.contains(x) <==> exists|i: int| #[trigger] has_key(teams, StandingKey::Conference, x, i));
                assert(n2.contains(x) <==> exists|i: int| #[trigger] has_key(teams, StandingKey::Conference, x, i));
            }
            lemma_sorted_names_unique(n1, n2);
            assert forall|k: int| 0 <= k < g1.len() implies conference_block(teams, g1[k]) == conference_block(teams, g2[k]) by {
                assert(n1[k] == g1[k].name@);
                assert(n2[k] == g2[k].name@);
                crate::ranking::lemma_ranking_unique(
                    points_of(teams),
                    |i: int| has_key(teams, StandingKey::Conference, g1[k].name@, i),
                    g1[k].order@,
                    g2[k].order@,
                );
            }
            assert(Seq::new(g1.len(), |k: int| conference_block(teams, g1[k])) =~= Seq::new(g2.len(), |k: int| conference_block(teams, g2[k])));
        },
        StandingsMode::WildCard => {
            let w1 = choose|ws: Seq<WildCardConference>|
                is_key_index(teams, StandingKey::Conference, conference_names(ws))
                    && (forall|k: int| 0 <= k < ws.len() ==> is_wild_card_conference(teams, #[trigger] ws[k].name@, ws[k]))
                    && l1 == wild_card_text(teams, ws);
            let w2 = choose|ws: Seq<WildCardConference>|
                is_key_index(teams, StandingKey::Conference, conference_names(ws))
                    && (forall|k: int| 0 <= k < ws.len() ==> is_wild_card_conference(teams, #[trigger] ws[k].name@, ws[k]))
                    && l2 == wild_card_text(teams, ws);
            let n1 = conference_names(w1);
            let n2 = conference_names(w2);
            assert forall|x: Seq<char>| n1.contains(x) <==> n2.contains(x) by {
                assert(n1.contains(x) <==> exists|i: int| #[trigger] has_key(teams, StandingKey::Conference, x, i));
                assert(n2.contains(x) <==> exists|i: int| #[trigger] has_key(teams, StandingKey::Conference, x, i));
            }
            lemma_sorted_names_unique(n1, n2);
            assert forall|k: int| 0 <= k < w1.len() implies wild_card_block(teams, w1[k]) == wild_card_block(teams, w2[k]) by {
                assert(n1[k] == w1[k].name@);
                assert(n2[k] == w2[k].name@);
                assert(is_wild_card_conference(teams, w1[k].name@, w1[k]));
                assert(is_wild_card_conference(teams, w2[k].name@, w2[k]));
                lemma_wild_card_blocks_agree(teams, w1[k].name@, w1[k], w2[k]);
            }
            assert(Seq::new(w1.len(), |k: int| wild_card_block(teams, w1[k])) =~= Seq::new(w2.len(), |k: int| wild_card_block(teams, w2[k])));
        },
    }
}

/// The league order lists every team once, points never increase along it, and teams level
/// on points keep the order of the snapshot.
pub proof fn lemma_league_order_sorted_stable(teams: Seq<TeamStanding>, order: Seq<usize>)
    requires
        is_ranking(points_of(teams), |i: int| 0 <= i < teams.len(), order),
        teams.len() <= usize::MAX,
    ensures
        order.len() == teams.len(),
        order.no_duplicates(),
        forall|i: int| 0 <= i < teams.len() ==> #[trigger] listed(order, i),
        forall|p: int, q: int|
            0 <= p <= q < order.len() ==> count_or_zero(teams[order[p] as int].points) >= count_or_zero(
                teams[order[q] as int].points,
            ),
        forall|p: int, q: int|
            0 <= p < q < order.len() && count_or_zero(teams[order[p] as int].points) == count_or_zero(
                teams[order[q] as int].points,
            ) ==> order[p] < order[q],
{
    let keys = points_of(teams);
    crate::ranking::lemma_ranking_non_increasing(keys, |i: int| 0 <= i < teams.len(), order);
    assert forall|i: int| 0 <= i < teams.len() implies #[trigger] listed(order, i) by {
        crate::ranking::lemma_ranking_complete(keys, |i: int| 0 <= i < teams.len(), order, i);
    }
    let all = Seq::new(teams.len(), |i: int| i as usize);
    assert(order.to_set() =~= all.to_set()) by {
        assert forall|x: usize| order.to_set().contains(x) implies all.to_set().contains(x) by {
            let q = choose|q: int| 0 <= q < order.len() && order[q] == x;
            assert(all[x as int] == x);
        }
        assert forall|x: usize| all.to_set().contains(x) implies order.to_set().contains(x) by {
            let q = choose|q: int| 0 <= q < all.len() && all[q] == x;
            assert(listed(order, q));
        }
    }
    assert(all.no_duplicates());
    order.unique_seq_to_set();
    all.unique_seq_to_set();
    assert forall|p: int, q: int|
        0 <= p < q < order.len() && count_or_zero(teams[order[p] as int].points) == count_or_zero(
            teams[order[q] as int].points,
        ) implies order[p] < order[q] by {
        assert(ranked_before(keys, order[p] as int, order[q] as int));
    }
}

/// Each team of the snapshot is in exactly one conference table, and once in it.
pub proof fn lemma_conference_places_each_team_once(teams: Seq<TeamStanding>, groups: Seq<RankedGroup>, i: int)
    requires
        is_grouping(teams, StandingKey::Conference, groups),
        0 <= i < teams.len(),
        teams.len() <= usize::MAX,
    ensures
        exists|k: int| 0 <= k < groups.len() && groups[k].order@.contains(i as usize),
        forall|k1: int, k2: int|
            0 <= k1 < groups.len() && 0 <= k2 < groups.len() && groups[k1].order@.contains(i as usize)
                && groups[k2].order@.contains(i as usize) ==> k1 == k2,
        forall|k: int| 0 <= k < groups.len() ==> groups[k].order@.no_duplicates(),
{
    let c = key_of(teams[i], StandingKey::Conference);
    let names = group_names(groups);
    assert(has_key(teams, StandingKey::Conference, c, i));
    assert(names.contains(c));
    let k = choose|k: int| 0 <= k < names.len() && names[k] == c;
    assert(groups[k].name@ == c);
    crate::ranking::lemma_ranking_complete(
        points_of(teams),
        |j: int| has_key(teams, StandingKey::Conference, groups[k].name@, j),
        groups[k].order@,
        i,
    );
    assert forall|k1: int, k2: int|
        0 <= k1 < groups.len() && 0 <= k2 < groups.len() && groups[k1].order@.contains(i as usize)
            && groups[k2].order@.contains(i as usize) implies k1 == k2 by {
        let q1 = choose|q: int| 0 <= q < groups[k1].order@.len() && groups[k1].order@[q] == i as usize;
        let q2 = choose|q: int| 0 <= q < groups[k2].order@.len() && groups[k2].order@[q] == i as usize;
        assert(is_ranking(points_of(teams), |j: int| has_key(teams, StandingKey::Conference, groups[k1].name@, j), groups[k1].order@));
        assert(is_ranking(points_of(teams), |j: int| has_key(teams, StandingKey::Conference, groups[k2].name@, j), groups[k2].order@));
        assert(has_key(teams, StandingKey::Conference, groups[k1].name@, groups[k1].order@[q1] as int));
        assert(has_key(teams, StandingKey::Conference, groups[k2].name@, groups[k2].order@[q2] as int));
        if k1 != k2 {
            lemma_sorted_names_distinct(names, k1, k2);
            assert(names[k1] == groups[k1].name@);
            assert(names[k2] == groups[k2].name@);
        }
    }
    assert forall|k: int| 0 <= k < groups.len() implies groups[k].order@.no_duplicates() by {
        assert(is_ranking(points_of(teams), |j: int| has_key(teams, StandingKey::Conference, groups[k].name@, j), groups[k].order@));
    }
}

/// The teams of conference `c`, as indices.
pub open spec fn conference_members(teams: Seq<TeamStanding>, c: Seq<char>) -> Set<usize> {
    Set::new(|x: usize| has_key(teams, StandingKey::Conference, c, x as int))
}

/// The division leaders of a wild-card layout where each division has at least three teams,
/// three per division in the order of the divisions.
pub open spec fn leaders_in_order(w: WildCardConference) -> Seq<usize> {
    Seq::new(3 * w.divisions@.len(), |j: int| w.divisions@[j / 3].order@[j % 3])
}

/// In the wild-card layout of a conference whose divisions have at least three teams each,
/// every division has exactly three leaders, its three teams with the most points (ties in
/// the order of the snapshot), so the `D` divisions give `3 × D` leaders, no team twice.
pub proof fn lemma_wild_card_leaders(teams: Seq<TeamStanding>, w: WildCardConference)
    requires
        is_wild_card_conference(teams, w.name@, w),
        forall|k: int| 0 <= k < w.divisions@.len() ==> #[trigger] w.divisions@[k].order@.len() >= 3,
    ensures
        forall|k: int| 0 <= k < w.divisions@.len() ==> leader_count(#[trigger] w.divisions@[k].order@.len()) == 3,
        leaders_in_order(w).len() == 3 * w.divisions@.len(),
        leaders_in_order(w).no_duplicates(),
        forall|k: int, p: int, q: int|
            #![trigger w.divisions@[k].order@[p], w.divisions@[k].order@[q]]
            0 <= k < w.divisions@.len() && 0 <= p <= q < 3 ==> points_of(teams)[w.divisions@[k].order@[p] as int]
                >= points_of(teams)[w.divisions@[k].order@[q] as int],
{
    let divs = w.divisions@;
    let lead = leaders_in_order(w);
    assert forall|k: int, p: int, q: int|
        #![trigger divs[k].order@[p], divs[k].order@[q]]
        0 <= k < divs.len() && 0 <= p <= q < 3 implies points_of(teams)[divs[k].order@[p] as int]
            >= points_of(teams)[divs[k].order@[q] as int] by {
        assert(is_ranking(points_of(teams), |i: int| has_key(teams, StandingKey::Division, divs[k].name@, i), divs[k].order@));
        crate::ranking::lemma_ranking_non_increasing(
            points_of(teams),
            |i: int| has_key(teams, StandingKey::Division, divs[k].name@, i),
            divs[k].order@,
        );
    }
    assert forall|a: int, b: int| 0 <= a < lead.len() && 0 <= b < lead.len() && a != b implies lead[a] != lead[b] by {
        let ka = a / 3;
        let kb = b / 3;
        assert(divs[ka].order@.len() >= 3);
        assert(divs[kb].order@.len() >= 3);
        assert(is_ranking(points_of(teams), |i: int| has_key(teams, StandingKey::Division, divs[ka].name@, i), divs[ka].order@));
        assert(is_ranking(points_of(teams), |i: int| has_key(teams, StandingKey::Division, divs[kb].name@, i), divs[kb].order@));
        assert(lead[a] == divs[ka].order@[a % 3]);
        assert(lead[b] == divs[kb].order@[b % 3]);
        if ka == kb {
            assert(a == 3 * ka + a % 3);
            assert(b == 3 * kb + b % 3);
            assert(divs[ka].order@.no_duplicates());
        } else if lead[a] == lead[b] {
            let i = lead[a] as int;
            assert(has_key(teams, StandingKey::Division, divs[ka].name@, divs[ka].order@[a % 3] as int));
            assert(has_key(teams, StandingKey::Division, divs[kb].name@, divs[kb].order@[b % 3] as int));
            lemma_sorted_names_distinct(group_names(divs), ka, kb);
            assert(group_names(divs)[ka] == divs[ka].name@);
            assert(group_names(divs)[kb] == divs[kb].name@);
        }
    }
}

/// In the wild-card layout of conference `c` of a snapshot whose divisions each lie in one
/// conference, whose team names are distinct and whose divisions in `c` have at least three
/// teams each: the `D` divisions give exactly `3 × D` leaders, and the wild-card list holds
/// the other `|c| − 3 × D` teams of the conference, with points never increasing along it.
pub proof fn lemma_wild_card_counts(teams: Seq<TeamStanding>, w: WildCardConference)
    requires
        divisions_within_conferences(teams),
        team_names_distinct(teams),
        is_wild_card_conference(teams, w.name@, w),
        teams.len() <= usize::MAX,
        forall|k: int| 0 <= k < w.divisions@.len() ==> #[trigger] w.divisions@[k].order@.len() >= 3,
    ensures
        forall|k: int| 0 <= k < w.divisions@.len() ==> leader_count(#[trigger] w.divisions@[k].order@.len()) == 3,
        leaders_in_order(w).len() == 3 * w.divisions@.len(),
        leaders_in_order(w).no_duplicates(),
        conference_members(teams, w.name@).len() == 3 * w.divisions@.len() + w.wild_card@.len(),
        forall|p: int, q: int|
            0 <= p <= q < w.wild_card@.len() ==> points_of(teams)[w.wild_card@[p] as int] >= points_of(
                teams,
            )[w.wild_card@[q] as int],
{
    let c = w.name@;
    let divs = w.divisions@;
    let lead = leaders_in_order(w);
    let wild = w.wild_card@;
    let shown = lead + wild;
    let n = teams.len();
    crate::ranking::lemma_ranking_non_increasing(points_of(teams), |i: int| in_wild_card(teams, c, divs, i), wild);
    // Where a leader stands.
    assert forall|j: int| 0 <= j < lead.len() implies leads_at(w, j / 3, j % 3, #[trigger] lead[j] as int) by {
        assert(divs[j / 3].order@.len() >= 3);
    }
    assert forall|j: int| 0 <= j < lead.len() implies (#[trigger] lead[j] as int) < n by {
        assert(leads_at(w, j / 3, j % 3, lead[j] as int));
        assert(is_ranking(points_of(teams), |i: int| has_key(teams, StandingKey::Division, divs[j / 3].name@, i), divs[j / 3].order@));
    }
    assert forall|q: int| 0 <= q < wild.len() implies (#[trigger] wild[q] as int) < n by {}
    // No team twice.
    assert forall|a: int, b: int| 0 <= a < shown.len() && 0 <= b < shown.len() && a != b implies shown[a] != shown[b] by {
        if shown[a] == shown[b] {
            let i = shown[a] as int;
            if a < lead.len() {
                assert(i < n);
            } else {
                assert(wild[a - lead.len()] as int == i);
            }
            lemma_wild_card_places_each_team_once(teams, w, i);
            if a < lead.len() && b < lead.len() {
                assert(leads_at(w, a / 3, a % 3, lead[a] as int));
                assert(leads_at(w, b / 3, b % 3, lead[b] as int));
                assert(a == 3 * (a / 3) + a % 3);
                assert(b == 3 * (b / 3) + b % 3);
            } else if a < lead.len() {
                assert(leads_at(w, a / 3, a % 3, i));
                assert(wild[b - lead.len()] as int == i);
                assert(wild.contains(i as usize));
            } else if b < lead.len() {
                assert(leads_at(w, b / 3, b % 3, i));
                assert(wild[a - lead.len()] as int == i);
                assert(wild.contains(i as usize));
            } else {
                assert(wild.no_duplicates());
            }
        }
    }
    assert forall|a: int, b: int| 0 <= a < lead.len() && 0 <= b < lead.len() && a != b implies lead[a] != lead[b] by {
        assert(shown[a] == lead[a] && shown[b] == lead[b]);
    }
    // Exactly the teams of the conference.
    let members = conference_members(teams, c);
    assert(shown.to_set() =~= members) by {
        assert forall|x: usize| shown.to_set().contains(x) implies members.contains(x) by {
            let a = choose|a: int| 0 <= a < shown.len() && shown[a] == x;
            let i = x as int;
            if a < lead.len() {
                assert(i < n);
                lemma_wild_card_places_each_team_once(teams, w, i);
                assert(leads_at(w, a / 3, a % 3, i));
            } else {
                assert(wild[a - lead.len()] == x);
                assert(in_wild_card(teams, c, divs, wild[a - lead.len()] as int));
            }
        }
        assert forall|x: usize| members.contains(x) implies shown.to_set().contains(x) by {
            let i = x as int;
            lemma_wild_card_places_each_team_once(teams, w, i);
            if wild.contains(x) {
                let q = choose|q: int| 0 <= q < wild.len() && wild[q] == x;
                assert(shown[lead.len() + q] == x);
            } else {
                let (k, q) = choose|k: int, q: int| leads_at(w, k, q, i);
                assert(divs[k].order@.len() >= 3);
                let j = 3 * k + q;
                assert(j / 3 == k && j % 3 == q);
                assert(lead[j] == x);
                assert(shown[j] == x);
            }
        }
    }
    shown.unique_seq_to_set();
}

/// The wild-card rows hold one row per team in the order given; a rule follows the second row
/// when there are more than two teams, and there is no rule otherwise.
pub proof fn lemma_wild_card_rule(teams: Seq<TeamStanding>, places: Seq<usize>)
    ensures
        places.len() <= 2 ==> wild_card_rows(teams, places) == rows_of(teams, places),
        places.len() > 2 ==> {
            let rows = wild_card_rows(teams, places);
            &&& rows.len() == places.len() + 1
            &&& rows[2] == single(repeat_char('-', standings_width()), Tone::Plain)
            &&& forall|q: int| 0 <= q < 2 ==> rows[q] == team_row(teams[places[q] as int])
            &&& forall|q: int| 2 <= q < places.len() ==> rows[q + 1] == team_row(teams[places[q] as int])
        },
{
}

} // verus!
