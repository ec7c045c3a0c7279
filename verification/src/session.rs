//! Session loop logic: the game-state machine, the per-tick dispatch, and
//! the randomized input-activation threshold used while the game runs.
//!
//! The loop itself (event polling, persistence, rendering) lives with the
//! caller; this module decides, from the current state and what the poll
//! returned, which engine may run a tick, and computes the bounded
//! threshold jitter from whatever the random generator yields.

use vstd::prelude::*;

verus! {

/// Runtime configuration, as the external loader supplies it. The core
/// consumes the multi-controller cap and the two file paths.
pub struct Config {
    pub path_common_name_max_length: u32,
    pub hat_only_players: Vec<String>,
    pub number_of_multi_port_controllers_to_use: u32,
    pub controller_bindings_file: String,
    pub binding_names_file: String,
}

#[derive(Copy, Clone, PartialEq, Eq, Structural, Debug)]
pub enum GameState {
    Binding,
    TeamSelect,
    GameActive,
}

/// What the hardware poll returned this tick.
#[derive(Copy, Clone, PartialEq, Eq, Structural, Debug)]
pub enum PolledEvent {
    Connected,
    Disconnected,
    OtherEvent,
    NoEvent,
}

/// What the loop must do this tick.
#[derive(Copy, Clone, PartialEq, Eq, Structural, Debug)]
pub enum TickAction {
    RebuildLookups,
    CoalesceEvents,
    RunBinding,
    RunTeamSelect,
    RunGameActive,
}

/// Per-tick dispatch: a connect or disconnect forces a lookup rebuild; any
/// other consumed event only lets the input library coalesce cached state;
/// an engine runs only on a quiet tick, chosen by the session state.
pub open spec fn spec_tick_action(state: GameState, event: PolledEvent) -> TickAction {
    match event {
        PolledEvent::Connected => TickAction::RebuildLookups,
        PolledEvent::Disconnected => TickAction::RebuildLookups,
        PolledEvent::OtherEvent => TickAction::CoalesceEvents,
        PolledEvent::NoEvent => match state {
            GameState::Binding => TickAction::RunBinding,
            GameState::TeamSelect => TickAction::RunTeamSelect,
            GameState::GameActive => TickAction::RunGameActive,
        },
    }
}

/// Decide this tick's action (see `spec_tick_action`).
pub fn next_tick_action(state: &GameState, event: &PolledEvent) -> (r: TickAction)
    ensures
        r == spec_tick_action(*state, *event),
{
    match event {
        PolledEvent::Connected => TickAction::RebuildLookups,
        PolledEvent::Disconnected => TickAction::RebuildLookups,
        PolledEvent::OtherEvent => TickAction::CoalesceEvents,
        PolledEvent::NoEvent => match state {
            GameState::Binding => TickAction::RunBinding,
            GameState::TeamSelect => TickAction::RunTeamSelect,
            GameState::GameActive => TickAction::RunGameActive,
        },
    }
}

/// Lowest activation threshold the jitter may pick, in milli-units.
pub const THRESHOLD_FLOOR_MILLI: u32 = 490;

/// Highest activation threshold the jitter may pick, in milli-units.
pub const THRESHOLD_CAP_MILLI: u32 = 950;

/// The jittered threshold a raw random draw maps to: the draw is reduced
/// to a fraction of 0.61 in milli-units above the 0.49 floor, then capped
/// at 0.95.
pub open spec fn spec_threshold_of(r: u64) -> u32 {
    let raw = 490 + (r % 10000) * 61 / 1000;
    if raw > 950 {
        950u32
    } else {
        raw as u32
    }
}

/// The jittered delay before the next threshold change, in milliseconds:
/// 300 up to 5299.
pub open spec fn spec_jitter_delay_of(r: u64) -> u64 {
    (r % 5000 + 300) as u64
}

/// Map a raw random draw to the bounded activation threshold.
pub fn threshold_of(r: u64) -> (t: u32)
    ensures
        t == spec_threshold_of(r),
        THRESHOLD_FLOOR_MILLI <= t <= THRESHOLD_CAP_MILLI,
{
    let frac: u64 = (r % 10000) * 61 / 1000;
    let raw: u64 = 490 + frac;
    if raw > 950 {
        950
    } else {
        raw as u32
    }
}

/// Map a raw random draw to the bounded timer delay.
pub fn jitter_delay_of(r: u64) -> (d: u64)
    ensures
        d == spec_jitter_delay_of(r),
        300 <= d <= 5299,
{
    r % 5000 + 300
}

/// Relies on rand::random: an arbitrary value of the drawn type; nothing
/// is assumed of which value comes back.
pub assume_specification<T>[ rand::random::<T> ]() -> (r: T)
    where
        rand::distributions::Standard: rand::distributions::Distribution<T>,
;

/// Draw the next activation threshold; bounded whatever the generator
/// returns.
pub fn roll_threshold() -> (t: u32)
    ensures
        THRESHOLD_FLOOR_MILLI <= t <= THRESHOLD_CAP_MILLI,
{
    let r: u64 = rand::random::<u64>();
    threshold_of(r)
}

/// The deadline one expiry leaves behind for a drawn delay `d`: the old
/// deadline plus the delay, pulled in to one second from now when that
/// still lies ahead.
pub open spec fn spec_jittered_deadline(change_time: u64, now: u64, d: u64) -> u64 {
    if now < change_time + d {
        (now + 1000) as u64
    } else {
        (change_time + d) as u64
    }
}

/// Advance the threshold timer once it has expired, as the loop does: add
/// the jittered delay to the old deadline, but when that still lies in the
/// future, pull it in to one second from now.
pub fn advance_thresh_timer(change_time: u64, delay: u64, now: u64) -> (t: u64)
    requires
        change_time + delay <= u64::MAX,
        now + 1000 <= u64::MAX,
    ensures
        t == spec_jittered_deadline(change_time, now, delay),
{
    let c2 = change_time + delay;
    if now < c2 {
        now + 1000
    } else {
        c2
    }
}

/// One expiry check of the threshold mechanic: before the deadline nothing
/// changes; at or past it, a fresh bounded threshold and a new deadline
/// are drawn. Whatever the generator returns, the new deadline is either
/// one second out or already due again.
pub fn maybe_update_threshold(thresh: u32, change_time: u64, now: u64) -> (r: (u32, u64))
    requires
        change_time + 5300 <= u64::MAX,
        now + 5300 <= u64::MAX,
    ensures
        now < change_time ==> r == (thresh, change_time),
        now >= change_time ==> THRESHOLD_FLOOR_MILLI <= r.0 <= THRESHOLD_CAP_MILLI,
        now >= change_time ==> exists|d: u64|
            300 <= d <= 5299 && r.1 == #[trigger] spec_jittered_deadline(change_time, now, d),
{
    if now < change_time {
        (thresh, change_time)
    } else {
        let rd: u64 = rand::random::<u64>();
        let delay = jitter_delay_of(rd);
        let new_time = advance_thresh_timer(change_time, delay, now);
        let new_thresh = roll_threshold();
        proof {
            assert(300 <= delay <= 5299 && new_time == spec_jittered_deadline(
                change_time,
                now,
                delay,
            ));
        }
        (new_thresh, new_time)
    }
}

} // verus!
