//! Team Assignment Engine: each named controller moves its player between
//! teams with directional input, joins team 0 with accept, and leaves its
//! team with decline. Teams form a 2-by-2 grid (0 top-left, 1 top-right,
//! 2 bottom-left, 3 bottom-right) and only those four team indices are
//! reachable by movement.

use vstd::prelude::*;

use crate::injoy::{
    GamepadInput, GamepadInputView, discretize, fires, spec_discretize, spec_fires,
};
use crate::joypaths::{
    EventPathEntryView, EventPathLookup, MinimalPathLookup, NamedPathView, epl_get,
    epl_keys_unique, mpl_keys_unique, name_of,
};
use crate::teams::{
    TeamLock, TeamView, count_name, last_team_of, lemma_contains_count,
    lemma_count_le_total, lemma_count_push, lemma_count_remove, lemma_last_team_of,
    lemma_total_update, lemma_total_zero, players_unique, remove_name, remove_player,
    total_count,
};

verus! {

/// The player name a controller's kernel devpath currently stands for:
/// devpath to minimal path through the event-path cache, then minimal path
/// to the record's common name.
pub open spec fn resolve_name(
    devpath: Seq<char>,
    epl: Seq<EventPathEntryView>,
    mpl: Seq<NamedPathView>,
) -> Option<Seq<char>> {
    match epl_get(epl, devpath) {
        Option::Some(minimal) => name_of(mpl, minimal),
        Option::None => Option::None,
    }
}

/// A team with every occurrence of the player removed.
pub open spec fn remove_from_team(t: TeamView, name: Seq<char>) -> TeamView {
    TeamView { name: t.name, players: remove_name(t.players, name), out_index: t.out_index }
}

/// A team with the player appended.
pub open spec fn push_to_team(t: TeamView, name: Seq<char>) -> TeamView {
    TeamView { name: t.name, players: t.players.push(name), out_index: t.out_index }
}

/// The fixed movement table over the 2-by-2 team grid, tried in order:
/// right from 0 to 1, down from 0 to 2, left from 1 to 0, down from 1 to 3,
/// right from 2 to 3, up from 2 to 0, left from 3 to 2, up from 3 to 1.
/// Any other combination moves nowhere.
pub open spec fn spec_team_transition(cur: int, h: int, v: int) -> Option<int> {
    if cur == 0 && h == 1 {
        Option::Some(1)
    } else if cur == 0 && v == 1 {
        Option::Some(2)
    } else if cur == 1 && h == -1 {
        Option::Some(0)
    } else if cur == 1 && v == 1 {
        Option::Some(3)
    } else if cur == 2 && h == 1 {
        Option::Some(3)
    } else if cur == 2 && v == -1 {
        Option::Some(0)
    } else if cur == 3 && h == -1 {
        Option::Some(2)
    } else if cur == 3 && v == -1 {
        Option::Some(1)
    } else {
        Option::None
    }
}

/// Effect of one controller's reading on the roster, and whether it counts
/// as a change. Decline leaves the current team (a change even when the
/// player was unassigned); accept joins team 0 only when unassigned;
/// otherwise the discretized axes may move the player along the grid.
pub open spec fn spec_team_step(
    teams: Seq<TeamView>,
    pad: GamepadInputView,
    epl: Seq<EventPathEntryView>,
    mpl: Seq<NamedPathView>,
) -> (Seq<TeamView>, bool) {
    match resolve_name(pad.devpath, epl, mpl) {
        Option::None => (teams, false),
        Option::Some(name) => {
            let cur = last_team_of(teams, name);
            if spec_fires(pad.decline_milli) {
                match cur {
                    Option::Some(c) => (
                        teams.update(c, remove_from_team(teams[c], name)),
                        true,
                    ),
                    Option::None => (teams, true),
                }
            } else if spec_fires(pad.accept_milli) && cur is None {
                (teams.update(0, push_to_team(teams[0], name)), true)
            } else {
                match cur {
                    Option::Some(c) => {
                        let h = spec_discretize(pad.horizontal_milli);
                        let v = spec_discretize(pad.vertical_milli);
                        match spec_team_transition(c, h, v) {
                            Option::Some(d) => if d != c {
                                let t1 = teams.update(c, remove_from_team(teams[c], name));
                                (t1.update(d, push_to_team(t1[d], name)), true)
                            } else {
                                (teams, false)
                            },
                            Option::None => (teams, false),
                        }
                    },
                    Option::None => (teams, false),
                }
            }
        },
    }
}

/// Effect of one tick over all live controllers, in reading order, with
/// the or-accumulated changed flag.
pub open spec fn spec_run_steps(
    teams: Seq<TeamView>,
    pads: Seq<GamepadInputView>,
    epl: Seq<EventPathEntryView>,
    mpl: Seq<NamedPathView>,
) -> (Seq<TeamView>, bool)
    decreases pads.len(),
{
    if pads.len() == 0 {
        (teams, false)
    } else {
        let s1 = spec_team_step(teams, pads[0], epl, mpl);
        let s2 = spec_run_steps(s1.0, pads.drop_first(), epl, mpl);
        (s2.0, s1.1 || s2.1)
    }
}

/// Resolve a kernel devpath to the player name bound to its controller.
pub fn resolve_player(devpath: &str, epl: &EventPathLookup, mpl: &MinimalPathLookup) -> (r: Option<
    String,
>)
    requires
        epl_keys_unique(epl@),
        mpl_keys_unique(mpl@),
    ensures
        match r {
            Option::Some(n) => resolve_name(devpath@, epl@, mpl@) == Option::Some(n@),
            Option::None => resolve_name(devpath@, epl@, mpl@) is None,
        },
{
    match epl.get(devpath) {
        Option::Some(mp) => mpl.get_common_name(mp.as_str()),
        Option::None => None,
    }
}

/// Movement table in executable form; a destination is always one of the
/// four grid teams.
pub fn team_transition(cur: usize, h: i32, v: i32) -> (r: Option<usize>)
    ensures
        match r {
            Option::Some(d) => Option::Some(d as int) == spec_team_transition(
                cur as int,
                h as int,
                v as int,
            ) && d < 4,
            Option::None => spec_team_transition(cur as int, h as int, v as int) is None,
        },
{
    if cur == 0 && h == 1 {
        Some(1)
    } else if cur == 0 && v == 1 {
        Some(2)
    } else if cur == 1 && h == -1 {
        Some(0)
    } else if cur == 1 && v == 1 {
        Some(3)
    } else if cur == 2 && h == 1 {
        Some(3)
    } else if cur == 2 && v == -1 {
        Some(0)
    } else if cur == 3 && h == -1 {
        Some(2)
    } else if cur == 3 && v == -1 {
        Some(1)
    } else {
        None
    }
}

/// Remove the player from team `c`, leaving every other team alone.
fn remove_player_in_team(lock: &mut TeamLock, c: usize, name: &str)
    requires
        c < old(lock)@.len(),
    ensures
        final(lock)@ == old(lock)@.update(
            c as int,
            remove_from_team(old(lock)@[c as int], name@),
        ),
{
    let ghost d0 = lock@;
    let mut t = lock.teams.remove(c);
    proof {
        assert(t@ == d0[c as int]);
    }
    remove_player(&mut t.players, name);
    proof {
        assert(t@ == remove_from_team(d0[c as int], name@));
    }
    lock.teams.insert(c, t);
    proof {
        assert(lock@ =~= d0.update(c as int, remove_from_team(d0[c as int], name@)));
    }
}

/// Append the player to team `c`, leaving every other team alone.
fn push_player_in_team(lock: &mut TeamLock, c: usize, name: &str)
    requires
        c < old(lock)@.len(),
    ensures
        final(lock)@ == old(lock)@.update(c as int, push_to_team(old(lock)@[c as int], name@)),
{
    let ghost d0 = lock@;
    let mut t = lock.teams.remove(c);
    proof {
        assert(t@ == d0[c as int]);
    }
    t.players.push(String::from_str(name));
    proof {
        assert(t@.players =~= d0[c as int].players.push(name@));
        assert(t@ == push_to_team(d0[c as int], name@));
    }
    lock.teams.insert(c, t);
    proof {
        assert(lock@ =~= d0.update(c as int, push_to_team(d0[c as int], name@)));
    }
}

/// One Team Assignment Engine tick: apply every live controller's cached
/// reading to the roster, in order, and say whether anything changed.
pub fn mutate_team_selection(
    teams: &mut TeamLock,
    epl: &EventPathLookup,
    mpl: &MinimalPathLookup,
    pads: &Vec<GamepadInput>,
) -> (changed: bool)
    requires
        epl_keys_unique(epl@),
        mpl_keys_unique(mpl@),
        old(teams)@.len() >= 4,
    ensures
        final(teams)@ == spec_run_steps(old(teams)@, pads.deep_view(), epl@, mpl@).0,
        changed == spec_run_steps(old(teams)@, pads.deep_view(), epl@, mpl@).1,
        final(teams)@.len() == old(teams)@.len(),
{
    let ghost d0 = teams@;
    let ghost pv = pads.deep_view();
    let ghost full = spec_run_steps(d0, pv, epl@, mpl@);
    let m: usize = pads.len();
    proof {
        assert(pv.subrange(0, m as int) =~= pv);
    }
    let mut changed: bool = false;
    let mut i: usize = 0;
    while i < m
        invariant
            m == pv.len(),
            m == pads@.len(),
            pv == pads.deep_view(),
            epl_keys_unique(epl@),
            mpl_keys_unique(mpl@),
            full == spec_run_steps(d0, pv, epl@, mpl@),
            0 <= i <= m,
            teams@.len() == d0.len(),
            d0.len() >= 4,
            spec_run_steps(teams@, pv.subrange(i as int, m as int), epl@, mpl@).0 == full.0,
            (changed || spec_run_steps(teams@, pv.subrange(i as int, m as int), epl@, mpl@).1)
                == full.1,
        decreases m - i,
    {
        let ghost rest = pv.subrange(i as int, m as int);
        let ghost pre = teams@;
        let ghost padv = pv[i as int];
        let ghost step = spec_team_step(pre, padv, epl@, mpl@);
        proof {
            assert(rest[0] == padv);
            assert(rest.drop_first() =~= pv.subrange(i as int + 1, m as int));
        }
        let pad = &pads[i];
        proof {
            assert(pad@ == padv);
        }
        match resolve_player(pad.devpath.as_str(), epl, mpl) {
            Option::None => {
                proof {
                    assert(step == (pre, false));
                }
            },
            Option::Some(name) => {
                let ghost nm = name@;
                let cur = teams.find_player_team(name.as_str());
                proof {
                    lemma_last_team_of(pre, nm);
                }
                if fires(pad.decline_milli) {
                    match cur {
                        Option::Some(c) => {
                            remove_player_in_team(teams, c, name.as_str());
                        },
                        Option::None => {},
                    }
                    changed = true;
                    proof {
                        assert(teams@ == step.0);
                        assert(step.1);
                    }
                } else {
                    let accept_fires = fires(pad.accept_milli);
                    match cur {
                        Option::None => {
                            if accept_fires {
                                push_player_in_team(teams, 0, name.as_str());
                                changed = true;
                                proof {
                                    assert(teams@ == step.0);
                                    assert(step.1);
                                }
                            } else {
                                proof {
                                    assert(step == (pre, false));
                                }
                            }
                        },
                        Option::Some(c) => {
                            let h = discretize(pad.horizontal_milli);
                            let v = discretize(pad.vertical_milli);
                            match team_transition(c, h, v) {
                                Option::Some(d) => {
                                    if d != c {
                                        remove_player_in_team(teams, c, name.as_str());
                                        push_player_in_team(teams, d, name.as_str());
                                        changed = true;
                                        proof {
                                            assert(teams@ == step.0);
                                            assert(step.1);
                                        }
                                    } else {
                                        proof {
                                            assert(step == (pre, false));
                                        }
                                    }
                                },
                                Option::None => {
                                    proof {
                                        assert(step == (pre, false));
                                    }
                                },
                            }
                        },
                    }
                }
            },
        }
        proof {
            assert(teams@ == step.0);
            assert(spec_run_steps(pre, rest, epl@, mpl@).0 == spec_run_steps(
                teams@,
                rest.drop_first(),
                epl@,
                mpl@,
            ).0);
        }
        i = i + 1;
    }
    proof {
        assert(pv.subrange(m as int, m as int) =~= Seq::<GamepadInputView>::empty());
    }
    changed
}

/// One engine step keeps the roster invariant: a player name stays in at
/// most one team's list.
pub proof fn lemma_step_preserves_players_unique(
    teams: Seq<TeamView>,
    pad: GamepadInputView,
    epl: Seq<EventPathEntryView>,
    mpl: Seq<NamedPathView>,
)
    requires
        players_unique(teams),
        teams.len() >= 4,
    ensures
        players_unique(spec_team_step(teams, pad, epl, mpl).0),
        spec_team_step(teams, pad, epl, mpl).0.len() == teams.len(),
{
    let out = spec_team_step(teams, pad, epl, mpl).0;
    match resolve_name(pad.devpath, epl, mpl) {
        Option::None => {},
        Option::Some(name) => {
            let cur = last_team_of(teams, name);
            lemma_last_team_of(teams, name);
            if spec_fires(pad.decline_milli) {
                match cur {
                    Option::Some(c) => {
                        lemma_removal_unique(teams, c, name);
                    },
                    Option::None => {},
                }
            } else if spec_fires(pad.accept_milli) && cur is None {
                assert forall|m: Seq<char>| #[trigger] total_count(out, m) <= 1 by {
                    lemma_total_update(teams, 0, push_to_team(teams[0], name), m);
                    lemma_count_push(teams[0].players, name, m);
                    if m == name {
                        lemma_total_zero(teams, name);
                        lemma_count_le_total(teams, 0, name);
                    }
                }
            } else {
                match cur {
                    Option::Some(c) => {
                        let h = spec_discretize(pad.horizontal_milli);
                        let v = spec_discretize(pad.vertical_milli);
                        match spec_team_transition(c, h, v) {
                            Option::Some(d) => {
                                if d != c {
                                    let t1 = teams.update(c, remove_from_team(teams[c], name));
                                    lemma_removal_unique(teams, c, name);
                                    assert forall|m: Seq<char>| #[trigger] total_count(
                                        t1.update(d, push_to_team(t1[d], name)),
                                        m,
                                    ) <= 1 by {
                                        lemma_total_update(t1, d, push_to_team(t1[d], name), m);
                                        lemma_count_push(t1[d].players, name, m);
                                        if m == name {
                                            lemma_total_update(
                                                teams,
                                                c,
                                                remove_from_team(teams[c], name),
                                                name,
                                            );
                                            lemma_count_remove(teams[c].players, name, name);
                                            lemma_contains_count(teams[c].players, name);
                                            lemma_count_le_total(teams, c, name);
                                            assert(total_count(t1, name) == 0);
                                            lemma_count_le_total(t1, d, name);
                                        }
                                    }
                                }
                            },
                            Option::None => {},
                        }
                    },
                    Option::None => {},
                }
            }
        },
    }
}

/// Removing a player from one team keeps the roster invariant.
proof fn lemma_removal_unique(teams: Seq<TeamView>, c: int, name: Seq<char>)
    requires
        players_unique(teams),
        0 <= c < teams.len(),
    ensures
        players_unique(teams.update(c, remove_from_team(teams[c], name))),
{
    let out = teams.update(c, remove_from_team(teams[c], name));
    assert forall|m: Seq<char>| #[trigger] total_count(out, m) <= 1 by {
        lemma_total_update(teams, c, remove_from_team(teams[c], name), m);
        lemma_count_remove(teams[c].players, name, m);
        if m != name {
            assert(total_count(out, m) == total_count(teams, m));
        }
    }
}

/// A whole tick keeps the roster invariant, whatever the controllers read.
pub proof fn lemma_tick_preserves_players_unique(
    teams: Seq<TeamView>,
    pads: Seq<GamepadInputView>,
    epl: Seq<EventPathEntryView>,
    mpl: Seq<NamedPathView>,
)
    requires
        players_unique(teams),
        teams.len() >= 4,
    ensures
        players_unique(spec_run_steps(teams, pads, epl, mpl).0),
        spec_run_steps(teams, pads, epl, mpl).0.len() == teams.len(),
    decreases pads.len(),
{
    if pads.len() == 0 {
    } else {
        lemma_step_preserves_players_unique(teams, pads[0], epl, mpl);
        lemma_tick_preserves_players_unique(
            spec_team_step(teams, pads[0], epl, mpl).0,
            pads.drop_first(),
            epl,
            mpl,
        );
    }
}

} // verus!
