//! Team roster: ordered teams of player names, with the invariant that a
//! player name appears in at most one team's list at a time.

use vstd::prelude::*;

use crate::joypaths::{MinimalPathLookup, NamedPathView, is_bound_name};
use crate::strutil::str_eq;

verus! {

pub struct Team {
    pub name: String,
    pub players: Vec<String>,
    pub out_index: u32,
}

/// Mathematical image of a `Team`.
pub struct TeamView {
    pub name: Seq<char>,
    pub players: Seq<Seq<char>>,
    pub out_index: u32,
}

impl View for Team {
    type V = TeamView;

    open spec fn view(&self) -> TeamView {
        TeamView { name: self.name@, players: self.players.deep_view(), out_index: self.out_index }
    }
}

impl DeepView for Team {
    type V = TeamView;

    open spec fn deep_view(&self) -> TeamView {
        self.view()
    }
}

/// The persisted roster ("lock"): an ordered sequence of teams.
pub struct TeamLock {
    pub teams: Vec<Team>,
}

impl View for TeamLock {
    type V = Seq<TeamView>;

    open spec fn view(&self) -> Seq<TeamView> {
        self.teams.deep_view()
    }
}

/// How many entries of a player list equal `name`.
pub open spec fn count_name(players: Seq<Seq<char>>, name: Seq<char>) -> nat
    decreases players.len(),
{
    if players.len() == 0 {
        0
    } else {
        count_name(players.drop_last(), name) + if players.last() == name {
            1nat
        } else {
            0nat
        }
    }
}

/// The player list with every entry equal to `name` removed, order kept.
pub open spec fn remove_name(players: Seq<Seq<char>>, name: Seq<char>) -> Seq<Seq<char>>
    decreases players.len(),
{
    if players.len() == 0 {
        Seq::empty()
    } else {
        let rest = remove_name(players.drop_last(), name);
        if players.last() == name {
            rest
        } else {
            rest.push(players.last())
        }
    }
}

/// How many times `name` occurs over all team player lists.
pub open spec fn total_count(teams: Seq<TeamView>, name: Seq<char>) -> nat
    decreases teams.len(),
{
    if teams.len() == 0 {
        0
    } else {
        total_count(teams.drop_last(), name) + count_name(teams.last().players, name)
    }
}

/// The roster invariant: every player name stands in at most one list,
/// and there at most once.
pub open spec fn players_unique(teams: Seq<TeamView>) -> bool {
    forall|name: Seq<char>| #[trigger] total_count(teams, name) <= 1
}

/// The team that currently holds `name`: the last list containing it, as
/// a forward scan that keeps overwriting its match would find it.
pub open spec fn last_team_of(teams: Seq<TeamView>, name: Seq<char>) -> Option<int>
    decreases teams.len(),
{
    if teams.len() == 0 {
        Option::None
    } else if teams.last().players.contains(name) {
        Option::Some(teams.len() - 1)
    } else {
        last_team_of(teams.drop_last(), name)
    }
}

/// Removing a name empties its count and leaves every other count alone.
pub proof fn lemma_count_remove(players: Seq<Seq<char>>, name: Seq<char>, m: Seq<char>)
    ensures
        count_name(remove_name(players, name), m) == if m == name {
            0nat
        } else {
            count_name(players, m)
        },
    decreases players.len(),
{
    if players.len() == 0 {
    } else {
        lemma_count_remove(players.drop_last(), name, m);
        let rest = remove_name(players.drop_last(), name);
        if players.last() == name {
        } else {
            assert(rest.push(players.last()).drop_last() =~= rest);
        }
    }
}

/// A name occurs in a list exactly when its count is positive.
pub proof fn lemma_contains_count(players: Seq<Seq<char>>, name: Seq<char>)
    ensures
        players.contains(name) <==> count_name(players, name) >= 1,
    decreases players.len(),
{
    if players.len() == 0 {
    } else {
        lemma_contains_count(players.drop_last(), name);
        if players.contains(name) {
            let i = choose|i: int| 0 <= i < players.len() && players[i] == name;
            if i < players.len() - 1 {
                assert(players.drop_last()[i] == name);
                assert(players.drop_last().contains(name));
            }
        }
        if players.drop_last().contains(name) {
            let i = choose|i: int|
                0 <= i < players.drop_last().len() && players.drop_last()[i] == name;
            assert(players[i] == name);
        }
    }
}

/// Replacing one team changes each total by that team's own difference.
pub proof fn lemma_total_update(teams: Seq<TeamView>, c: int, t2: TeamView, name: Seq<char>)
    requires
        0 <= c < teams.len(),
    ensures
        total_count(teams.update(c, t2), name) + count_name(teams[c].players, name) == total_count(
            teams,
            name,
        ) + count_name(t2.players, name),
    decreases teams.len(),
{
    let upd = teams.update(c, t2);
    if c == teams.len() - 1 {
        assert(upd.drop_last() =~= teams.drop_last());
        assert(upd.last() == t2);
    } else {
        assert(upd.drop_last() =~= teams.drop_last().update(c, t2));
        assert(upd.last() == teams.last());
        lemma_total_update(teams.drop_last(), c, t2, name);
    }
}

/// Appending one name to one team raises its total by one.
pub proof fn lemma_count_push(players: Seq<Seq<char>>, x: Seq<char>, m: Seq<char>)
    ensures
        count_name(players.push(x), m) == count_name(players, m) + if x == m {
            1nat
        } else {
            0nat
        },
{
    assert(players.push(x).drop_last() =~= players);
}

/// One team's count never exceeds the roster-wide total.
pub proof fn lemma_count_le_total(teams: Seq<TeamView>, c: int, m: Seq<char>)
    requires
        0 <= c < teams.len(),
    ensures
        count_name(teams[c].players, m) <= total_count(teams, m),
    decreases teams.len(),
{
    if c == teams.len() - 1 {
    } else {
        lemma_count_le_total(teams.drop_last(), c, m);
        assert(teams.drop_last()[c] == teams[c]);
    }
}

/// What `last_team_of` finds: a containing team, with none after it; or
/// a guarantee that no team contains the name.
pub proof fn lemma_last_team_of(teams: Seq<TeamView>, name: Seq<char>)
    ensures
        match last_team_of(teams, name) {
            Option::Some(c) => 0 <= c < teams.len() && teams[c].players.contains(name)
                && forall|i: int| c < i < teams.len() ==> !(#[trigger] teams[i].players.contains(name)),
            Option::None => forall|i: int|
                0 <= i < teams.len() ==> !(#[trigger] teams[i].players.contains(name)),
        },
    decreases teams.len(),
{
    if teams.len() == 0 {
    } else if teams.last().players.contains(name) {
    } else {
        lemma_last_team_of(teams.drop_last(), name);
        assert forall|i: int| 0 <= i < teams.len() - 1 implies teams.drop_last()[i] == teams[i] by {}
    }
}

/// When no team contains a name, its total is zero.
pub proof fn lemma_total_zero(teams: Seq<TeamView>, name: Seq<char>)
    requires
        forall|i: int| 0 <= i < teams.len() ==> !(#[trigger] teams[i].players.contains(name)),
    ensures
        total_count(teams, name) == 0,
    decreases teams.len(),
{
    if teams.len() == 0 {
    } else {
        assert(!teams[teams.len() - 1].players.contains(name));
        lemma_contains_count(teams.last().players, name);
        assert forall|i: int|
            0 <= i < teams.drop_last().len() implies !(#[trigger] teams.drop_last()[
            i
        ].players.contains(name)) by {
            assert(teams.drop_last()[i] == teams[i]);
        }
        lemma_total_zero(teams.drop_last(), name);
    }
}

/// Whether the list holds the player, decided by character comparison.
pub fn contains_player(players: &Vec<String>, name: &str) -> (r: bool)
    ensures
        r == players.deep_view().contains(name@),
{
    let n: usize = players.len();
    let mut i: usize = 0;
    while i < n
        invariant
            n == players.deep_view().len(),
            n == players@.len(),
            0 <= i <= n,
            forall|k: int| 0 <= k < i ==> players.deep_view()[k] != name@,
        decreases n - i,
    {
        if str_eq(players[i].as_str(), name) {
            proof {
                assert(players.deep_view()[i as int] == name@);
            }
            return true;
        }
        i = i + 1;
    }
    proof {
        if players.deep_view().contains(name@) {
            let k = choose|k: int|
                0 <= k < players.deep_view().len() && players.deep_view()[k] == name@;
            assert(false);
        }
    }
    false
}

/// Remove every occurrence of the player from the list, keeping order.
pub fn remove_player(players: &mut Vec<String>, name: &str)
    ensures
        final(players).deep_view() == remove_name(old(players).deep_view(), name@),
{
    let ghost d = players.deep_view();
    let n: usize = players.len();
    let mut out: Vec<String> = Vec::new();
    let mut i: usize = 0;
    while i < n
        invariant
            n == d.len(),
            n == players@.len(),
            d == players.deep_view(),
            0 <= i <= n,
            out.deep_view() == remove_name(d.subrange(0, i as int), name@),
        decreases n - i,
    {
        let ghost pre = out.deep_view();
        proof {
            assert(d.subrange(0, i as int + 1).drop_last() =~= d.subrange(0, i as int));
            assert(d.subrange(0, i as int + 1).last() == d[i as int]);
        }
        if !str_eq(players[i].as_str(), name) {
            out.push(players[i].clone());
            proof {
                assert(out.deep_view() =~= pre.push(d[i as int]));
            }
        }
        i = i + 1;
    }
    proof {
        assert(d.subrange(0, n as int) =~= d);
    }
    *players = out;
}

impl TeamLock {
    /// A roster holding one team of the given name with no players.
    pub fn with_single_team(name: String) -> (r: Self)
        ensures
            r@.len() == 1,
            r@[0].name == name@,
            r@[0].players.len() == 0,
            r@[0].out_index == 0,
    {
        let team = Team { name, players: Vec::new(), out_index: 0 };
        let mut teams: Vec<Team> = Vec::new();
        teams.push(team);
        TeamLock { teams }
    }

    /// Index of the team currently holding `name`: the last list that
    /// contains it, as the roster scan finds it.
    pub fn find_player_team(&self, name: &str) -> (r: Option<usize>)
        ensures
            match r {
                Option::Some(c) => Option::Some(c as int) == last_team_of(self@, name@),
                Option::None => last_team_of(self@, name@) is None,
            },
    {
        let n: usize = self.teams.len();
        let mut found: Option<usize> = None;
        let mut i: usize = 0;
        while i < n
            invariant
                n == self@.len(),
                n == self.teams@.len(),
                0 <= i <= n,
                match found {
                    Option::Some(c) => Option::Some(c as int) == last_team_of(
                        self@.subrange(0, i as int),
                        name@,
                    ),
                    Option::None => last_team_of(self@.subrange(0, i as int), name@) is None,
                },
            decreases n - i,
        {
            proof {
                assert(self@.subrange(0, i as int + 1).drop_last() =~= self@.subrange(0, i as int));
                assert(self@.subrange(0, i as int + 1).last() == self@[i as int]);
            }
            if contains_player(&self.teams[i].players, name) {
                found = Some(i);
            }
            i = i + 1;
        }
        proof {
            assert(self@.subrange(0, n as int) =~= self@);
        }
        found
    }

    /// Drop from every team the players that no discovered controller is
    /// currently bound to; run once at startup before any tick.
    pub fn prune_missing_players(&mut self, mpl: &MinimalPathLookup)
        ensures
            final(self)@.len() == old(self)@.len(),
            forall|t: int|
                0 <= t < final(self)@.len() ==> {
                    &&& final(self)@[t].name == old(self)@[t].name
                    &&& final(self)@[t].out_index == old(self)@[t].out_index
                    &&& final(self)@[t].players == keep_bound(old(self)@[t].players, mpl@)
                },
    {
        let ghost d0 = self@;
        let n: usize = self.teams.len();
        let mut out: Vec<Team> = Vec::new();
        let mut t: usize = 0;
        while t < n
            invariant
                n == d0.len(),
                n == self.teams@.len(),
                d0 == self@,
                0 <= t <= n,
                out.deep_view().len() == t,
                forall|k: int|
                    0 <= k < t ==> {
                        &&& (#[trigger] out.deep_view()[k]).name == d0[k].name
                        &&& out.deep_view()[k].out_index == d0[k].out_index
                        &&& out.deep_view()[k].players == keep_bound(d0[k].players, mpl@)
                    },
            decreases n - t,
        {
            let ghost pre = out.deep_view();
            let team = &self.teams[t];
            proof {
                assert(team@ == d0[t as int]);
            }
            let kept = keep_bound_players(&team.players, mpl);
            let new_team = Team {
                name: team.name.clone(),
                players: kept,
                out_index: team.out_index,
            };
            proof {
                assert(new_team@.players == keep_bound(d0[t as int].players, mpl@));
            }
            out.push(new_team);
            proof {
                assert(out.deep_view() =~= pre.push(new_team@));
            }
            t = t + 1;
        }
        self.teams = out;
    }
}

/// The player list restricted to names currently bound to a controller.
pub open spec fn keep_bound(players: Seq<Seq<char>>, mpl: Seq<NamedPathView>) -> Seq<Seq<char>>
    decreases players.len(),
{
    if players.len() == 0 {
        Seq::empty()
    } else {
        let rest = keep_bound(players.drop_last(), mpl);
        if is_bound_name(mpl, players.last()) {
            rest.push(players.last())
        } else {
            rest
        }
    }
}

/// Keep exactly the players that some record's common name matches.
pub fn keep_bound_players(players: &Vec<String>, mpl: &MinimalPathLookup) -> (r: Vec<String>)
    ensures
        r.deep_view() == keep_bound(players.deep_view(), mpl@),
{
    let ghost d = players.deep_view();
    let n: usize = players.len();
    let mut out: Vec<String> = Vec::new();
    let mut i: usize = 0;
    while i < n
        invariant
            n == d.len(),
            n == players@.len(),
            d == players.deep_view(),
            0 <= i <= n,
            out.deep_view() == keep_bound(d.subrange(0, i as int), mpl@),
        decreases n - i,
    {
        let ghost pre = out.deep_view();
        proof {
            assert(d.subrange(0, i as int + 1).drop_last() =~= d.subrange(0, i as int));
            assert(d.subrange(0, i as int + 1).last() == d[i as int]);
        }
        if mpl.has_bound_name(players[i].as_str()) {
            out.push(players[i].clone());
            proof {
                assert(out.deep_view() =~= pre.push(d[i as int]));
            }
        }
        i = i + 1;
    }
    proof {
        assert(d.subrange(0, n as int) =~= d);
    }
    out
}

} // verus!
