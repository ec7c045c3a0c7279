use mjoy_core::bindings::{Binder, UpdateState};
use mjoy_core::injoy::GamepadInput;
use mjoy_core::joypaths::{EventPathEntry, EventPathLookup, MinimalPathLookup, NamedPath};
use mjoy_core::team_select::mutate_team_selection;
use mjoy_core::teams::{Team, TeamLock};

fn named(minimal: &str, event: &str, name: Option<&str>) -> NamedPath {
    NamedPath {
        full_path: format!("/dev/input/by-path/pci-0000:00:14.0-usb-0:{}-event-joystick", minimal),
        minimal_path: String::from(minimal),
        root_event_path: String::from(event),
        common_name: name.map(String::from),
    }
}

fn epl_of(pairs: &[(&str, &str)]) -> EventPathLookup {
    EventPathLookup(
        pairs
            .iter()
            .map(|(e, m)| EventPathEntry {
                event_path: String::from(*e),
                minimal_path: String::from(*m),
            })
            .collect(),
    )
}

fn pad(devpath: &str, accept: u32, decline: u32) -> GamepadInput {
    GamepadInput {
        devpath: String::from(devpath),
        accept_milli: accept,
        decline_milli: decline,
        horizontal_milli: None,
        vertical_milli: None,
    }
}

fn pad_axes(devpath: &str, h: Option<u32>, v: Option<u32>) -> GamepadInput {
    GamepadInput {
        devpath: String::from(devpath),
        accept_milli: 0,
        decline_milli: 0,
        horizontal_milli: h,
        vertical_milli: v,
    }
}

fn team(name: &str, players: &[&str]) -> Team {
    Team {
        name: String::from(name),
        players: players.iter().map(|p| String::from(*p)).collect(),
        out_index: 0,
    }
}

fn four_teams(players0: &[&str], players1: &[&str], players2: &[&str], players3: &[&str]) -> TeamLock {
    TeamLock {
        teams: vec![
            team("North", players0),
            team("East", players1),
            team("South", players2),
            team("West", players3),
        ],
    }
}

#[test]
fn binder_accept_binds_last_candidate_first() {
    // Worklist ["Alice", "Bob"]: "Bob" is offered first; accept fires on
    // the second controller, so "Bob" lands on its record.
    let mut binder = Binder::new(vec![String::from("Alice"), String::from("Bob")]);
    let epl = epl_of(&[
        ("/dev/input/event3", "1:1.0"),
        ("/dev/input/event4", "2:1.0"),
    ]);
    let mut mpl = MinimalPathLookup(vec![
        named("1:1.0", "/dev/input/event3", None),
        named("2:1.0", "/dev/input/event4", None),
    ]);
    let pads = vec![pad("/dev/input/event3", 0, 0), pad("/dev/input/event4", 1000, 0)];
    let st = binder.update(&pads, &epl, &mut mpl, 0);
    assert!(matches!(st, UpdateState::Binding));
    assert_eq!(binder.bindings_to_make, vec![String::from("Alice")]);
    assert_eq!(mpl.0[1].common_name.as_deref(), Some("Bob"));
    assert_eq!(mpl.0[0].common_name, None);
}

#[test]
fn binder_throttles_claims_within_cooldown() {
    let mut binder = Binder::new(vec![String::from("Alice"), String::from("Bob")]);
    let epl = epl_of(&[("/dev/input/event3", "1:1.0")]);
    let mut mpl = MinimalPathLookup(vec![named("1:1.0", "/dev/input/event3", None)]);
    let pads = vec![pad("/dev/input/event3", 1000, 0)];

    binder.update(&pads, &epl, &mut mpl, 0);
    assert_eq!(mpl.0[0].common_name.as_deref(), Some("Bob"));
    assert_eq!(binder.bindings_to_make.len(), 1);

    // 100 ms later the accept is still held: no scan may run yet.
    binder.update(&pads, &epl, &mut mpl, 100);
    assert_eq!(binder.bindings_to_make.len(), 1);
    assert_eq!(mpl.0[0].common_name.as_deref(), Some("Bob"));

    // At the 250 ms mark the next candidate is offered and claimed.
    binder.update(&pads, &epl, &mut mpl, 250);
    assert_eq!(binder.bindings_to_make.len(), 0);
    assert_eq!(mpl.0[0].common_name.as_deref(), Some("Alice"));
}

#[test]
fn binder_decline_skips_candidate_without_binding() {
    let mut binder = Binder::new(vec![String::from("Alice")]);
    let epl = epl_of(&[("/dev/input/event3", "1:1.0")]);
    let mut mpl = MinimalPathLookup(vec![named("1:1.0", "/dev/input/event3", None)]);
    let pads = vec![pad("/dev/input/event3", 0, 1000)];
    binder.update(&pads, &epl, &mut mpl, 0);
    assert!(binder.bindings_to_make.is_empty());
    assert_eq!(mpl.0[0].common_name, None);
}

#[test]
fn binder_goes_done_when_worklist_empty() {
    let mut binder = Binder::new(Vec::new());
    let epl = epl_of(&[]);
    let mut mpl = MinimalPathLookup(Vec::new());
    let pads: Vec<GamepadInput> = Vec::new();
    let st = binder.update(&pads, &epl, &mut mpl, 0);
    assert!(matches!(st, UpdateState::Done));
    let st2 = binder.update(&pads, &epl, &mut mpl, 500);
    assert!(matches!(st2, UpdateState::Done));
}

#[test]
fn binder_no_trigger_changes_nothing() {
    let mut binder = Binder::new(vec![String::from("Alice")]);
    let epl = epl_of(&[("/dev/input/event3", "1:1.0")]);
    let mut mpl = MinimalPathLookup(vec![named("1:1.0", "/dev/input/event3", None)]);
    // Accept fires on a controller whose devpath resolves to nothing.
    let pads = vec![pad("/dev/input/event9", 1000, 0)];
    let st = binder.update(&pads, &epl, &mut mpl, 0);
    assert!(matches!(st, UpdateState::Binding));
    assert_eq!(binder.bindings_to_make.len(), 1);
    assert_eq!(mpl.0[0].common_name, None);
}

fn carol_world() -> (EventPathLookup, MinimalPathLookup) {
    (
        epl_of(&[("/dev/input/event3", "1:1.0")]),
        MinimalPathLookup(vec![named("1:1.0", "/dev/input/event3", Some("Carol"))]),
    )
}

#[test]
fn directional_input_moves_player_across_grid() {
    // Carol sits in team 0; right moves her to team 1, then down to team 3.
    let (epl, mpl) = carol_world();
    let mut lock = four_teams(&["Carol"], &[], &[], &[]);

    let pads = vec![pad_axes("/dev/input/event3", Some(1000), Some(500))];
    let changed = mutate_team_selection(&mut lock, &epl, &mpl, &pads);
    assert!(changed);
    assert!(lock.teams[0].players.is_empty());
    assert_eq!(lock.teams[1].players, vec![String::from("Carol")]);

    let pads2 = vec![pad_axes("/dev/input/event3", Some(500), Some(1000))];
    let changed2 = mutate_team_selection(&mut lock, &epl, &mpl, &pads2);
    assert!(changed2);
    assert!(lock.teams[1].players.is_empty());
    assert_eq!(lock.teams[3].players, vec![String::from("Carol")]);
}

#[test]
fn neutral_axes_move_nobody() {
    let (epl, mpl) = carol_world();
    let mut lock = four_teams(&["Carol"], &[], &[], &[]);
    let pads = vec![pad_axes("/dev/input/event3", Some(500), Some(500))];
    let changed = mutate_team_selection(&mut lock, &epl, &mpl, &pads);
    assert!(!changed);
    assert_eq!(lock.teams[0].players, vec![String::from("Carol")]);
}

#[test]
fn decline_removes_player_from_her_team_only() {
    let (epl, mpl) = carol_world();
    let mut lock = four_teams(&["Ann"], &["Ben"], &["Carol", "Dee"], &["Eve"]);
    let pads = vec![pad("/dev/input/event3", 0, 1000)];
    let changed = mutate_team_selection(&mut lock, &epl, &mpl, &pads);
    assert!(changed);
    assert_eq!(lock.teams[0].players, vec![String::from("Ann")]);
    assert_eq!(lock.teams[1].players, vec![String::from("Ben")]);
    assert_eq!(lock.teams[2].players, vec![String::from("Dee")]);
    assert_eq!(lock.teams[3].players, vec![String::from("Eve")]);
}

#[test]
fn accept_assigns_unassigned_player_to_first_team() {
    let (epl, mpl) = carol_world();
    let mut lock = four_teams(&[], &[], &[], &[]);
    let pads = vec![pad("/dev/input/event3", 1000, 0)];
    let changed = mutate_team_selection(&mut lock, &epl, &mpl, &pads);
    assert!(changed);
    assert_eq!(lock.teams[0].players, vec![String::from("Carol")]);

    // A second accept is a no-op: movement is via direction, not re-accept.
    let changed2 = mutate_team_selection(&mut lock, &epl, &mpl, &pads);
    assert!(!changed2);
    assert_eq!(lock.teams[0].players, vec![String::from("Carol")]);
}

#[test]
fn player_never_lands_in_two_teams() {
    let (epl, mpl) = carol_world();
    let mut lock = four_teams(&["Carol"], &[], &[], &[]);
    let moves = [
        (Some(1000u32), Some(500u32)),
        (Some(500), Some(1000)),
        (Some(0), Some(500)),
        (Some(500), Some(0)),
        (Some(1000), Some(1000)),
    ];
    for (h, v) in moves {
        let pads = vec![pad_axes("/dev/input/event3", h, v)];
        mutate_team_selection(&mut lock, &epl, &mpl, &pads);
        let total: usize = lock
            .teams
            .iter()
            .map(|t| t.players.iter().filter(|p| p.as_str() == "Carol").count())
            .sum();
        assert_eq!(total, 1);
    }
}

#[test]
fn unbound_players_are_pruned_at_startup() {
    // The lock file names Dave, but no bound controller carries his name.
    let mpl = MinimalPathLookup(vec![named("1:1.0", "/dev/input/event3", Some("Carol"))]);
    let mut lock = four_teams(&["Carol", "Dave"], &["Dave"], &[], &[]);
    lock.prune_missing_players(&mpl);
    assert_eq!(lock.teams[0].players, vec![String::from("Carol")]);
    assert!(lock.teams[1].players.is_empty());
    assert_eq!(lock.teams.len(), 4);
    assert_eq!(lock.teams[1].name, "East");
}
