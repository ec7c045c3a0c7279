use mjoy_core::command_server::{Command, parse_command};
use mjoy_core::feedback::{PressState, update_gui_teams};
use mjoy_core::injoy::{discretize, fires};
use mjoy_core::session::{
    GameState, PolledEvent, TickAction, jitter_delay_of, maybe_update_threshold,
    next_tick_action, threshold_of,
};
use mjoy_core::teams::{Team, TeamLock};

#[test]
fn commands_parse_by_keyword_then_json() {
    assert!(matches!(parse_command("GET /setup HTTP/1.1"), Some(Command::Setup)));
    assert!(matches!(parse_command("please start now"), Some(Command::Start)));
    assert!(matches!(parse_command("POST {\"teams\": 3}"), Some(Command::Teams(3))));
    assert!(parse_command("nothing of note").is_none());
    assert!(parse_command("{\"players\": 3}").is_none());
    // "setup" wins over a JSON body.
    assert!(matches!(parse_command("setup {\"teams\": 2}"), Some(Command::Setup)));
}

#[test]
fn tick_dispatch_follows_state_and_event() {
    assert_eq!(
        next_tick_action(&GameState::Binding, &PolledEvent::Connected),
        TickAction::RebuildLookups
    );
    assert_eq!(
        next_tick_action(&GameState::GameActive, &PolledEvent::Disconnected),
        TickAction::RebuildLookups
    );
    assert_eq!(
        next_tick_action(&GameState::TeamSelect, &PolledEvent::OtherEvent),
        TickAction::CoalesceEvents
    );
    assert_eq!(
        next_tick_action(&GameState::Binding, &PolledEvent::NoEvent),
        TickAction::RunBinding
    );
    assert_eq!(
        next_tick_action(&GameState::TeamSelect, &PolledEvent::NoEvent),
        TickAction::RunTeamSelect
    );
    assert_eq!(
        next_tick_action(&GameState::GameActive, &PolledEvent::NoEvent),
        TickAction::RunGameActive
    );
}

#[test]
fn threshold_formula_exact_values() {
    assert_eq!(threshold_of(0), 490);
    // 9999 % 10000 = 9999; 9999 * 61 / 1000 = 609; 490 + 609 = 1099, capped.
    assert_eq!(threshold_of(9999), 950);
    // 5000 * 61 / 1000 = 305; 490 + 305 = 795.
    assert_eq!(threshold_of(5000), 795);
    assert_eq!(threshold_of(10000), 490);
}

#[test]
fn jitter_delay_formula_exact_values() {
    assert_eq!(jitter_delay_of(0), 300);
    assert_eq!(jitter_delay_of(4999), 5299);
    assert_eq!(jitter_delay_of(5000), 300);
}

#[test]
fn firing_and_discretization_edges() {
    assert!(!fires(900));
    assert!(fires(901));
    assert_eq!(discretize(None), 0);
    assert_eq!(discretize(Some(99)), -1);
    assert_eq!(discretize(Some(100)), 0);
    assert_eq!(discretize(Some(900)), 0);
    assert_eq!(discretize(Some(901)), 1);
}

#[test]
fn gui_feedback_mirrors_roster() {
    let lock = TeamLock {
        teams: vec![
            Team {
                name: String::from("North"),
                players: vec![String::from("Ann"), String::from("Ben")],
                out_index: 0,
            },
            Team { name: String::from("East"), players: Vec::new(), out_index: 1 },
        ],
    };
    let fb = update_gui_teams(&lock);
    assert_eq!(fb.teams.len(), 2);
    assert_eq!(fb.teams[0].team_name, "North");
    assert_eq!(fb.teams[1].team_name, "East");
    assert_eq!(fb.teams[0].players.len(), 2);
    assert_eq!(fb.teams[0].players[0].player_name, "Ann");
    assert_eq!(fb.teams[0].players[1].player_name, "Ben");
    assert!(fb.teams[1].players.is_empty());
    let presses = &fb.teams[0].players[0].feedback;
    assert_eq!(presses.0.len(), 12);
    assert_eq!(presses.0[0].button, "<");
    assert_eq!(presses.0[11].button, "e");
    assert!(presses.0.iter().all(|bp| bp.state == PressState::Unpressed));
}

#[test]
fn threshold_timer_waits_for_its_deadline() {
    assert_eq!(maybe_update_threshold(900, 1000, 500), (900, 1000));
}

#[test]
fn threshold_redraw_stays_bounded() {
    let (t, c) = maybe_update_threshold(900, 1000, 2000);
    assert!((490..=950).contains(&t));
    assert!(c == 3000 || c <= 2000);
}
