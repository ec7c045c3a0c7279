//! Render-feedback data: the per-team, per-player button state handed to
//! a display. Rebuilt from the roster whenever it changes; every button
//! starts unpressed.

use vstd::prelude::*;

use crate::teams::TeamLock;

verus! {

#[derive(Clone, PartialEq, Eq)]
pub enum PressState {
    Pressed,
    Unpressed,
}

#[derive(Clone)]
pub struct ButtonPress {
    pub button: String,
    pub state: PressState,
}

/// Mathematical image of a `ButtonPress`.
pub struct ButtonPressView {
    pub button: Seq<char>,
    pub state: PressState,
}

impl View for ButtonPress {
    type V = ButtonPressView;

    open spec fn view(&self) -> ButtonPressView {
        ButtonPressView { button: self.button@, state: self.state }
    }
}

impl DeepView for ButtonPress {
    type V = ButtonPressView;

    open spec fn deep_view(&self) -> ButtonPressView {
        self.view()
    }
}

#[derive(Clone)]
pub struct Presses(pub Vec<ButtonPress>);

impl View for Presses {
    type V = Seq<ButtonPressView>;

    open spec fn view(&self) -> Seq<ButtonPressView> {
        self.0.deep_view()
    }
}

#[derive(Clone)]
pub struct Player {
    pub player_name: String,
    pub feedback: Presses,
}

/// Mathematical image of a `Player`.
pub struct PlayerView {
    pub player_name: Seq<char>,
    pub feedback: Seq<ButtonPressView>,
}

impl View for Player {
    type V = PlayerView;

    open spec fn view(&self) -> PlayerView {
        PlayerView { player_name: self.player_name@, feedback: self.feedback@ }
    }
}

impl DeepView for Player {
    type V = PlayerView;

    open spec fn deep_view(&self) -> PlayerView {
        self.view()
    }
}

#[derive(Clone)]
pub struct Team {
    pub team_name: String,
    pub players: Vec<Player>,
    pub feedback: Presses,
}

/// Mathematical image of a feedback `Team`.
pub struct TeamView {
    pub team_name: Seq<char>,
    pub players: Seq<PlayerView>,
    pub feedback: Seq<ButtonPressView>,
}

impl View for Team {
    type V = TeamView;

    open spec fn view(&self) -> TeamView {
        TeamView {
            team_name: self.team_name@,
            players: self.players.deep_view(),
            feedback: self.feedback@,
        }
    }
}

impl DeepView for Team {
    type V = TeamView;

    open spec fn deep_view(&self) -> TeamView {
        self.view()
    }
}

#[derive(Clone)]
pub struct FeedbackInfo {
    pub teams: Vec<Team>,
}

impl View for FeedbackInfo {
    type V = Seq<TeamView>;

    open spec fn view(&self) -> Seq<TeamView> {
        self.teams.deep_view()
    }
}

/// An unpressed reading of one button.
pub open spec fn unpressed(b: Seq<char>) -> ButtonPressView {
    ButtonPressView { button: b, state: PressState::Unpressed }
}

/// The fresh feedback row: the twelve controller buttons, all unpressed.
pub open spec fn default_presses_view() -> Seq<ButtonPressView> {
    seq![
        unpressed("<"@),
        unpressed(">"@),
        unpressed("^"@),
        unpressed("v"@),
        unpressed("A"@),
        unpressed("B"@),
        unpressed("X"@),
        unpressed("Y"@),
        unpressed("L"@),
        unpressed("R"@),
        unpressed("t"@),
        unpressed("e"@),
    ]
}

/// Build the fresh feedback row.
pub fn default_presses() -> (r: Presses)
    ensures
        r@ == default_presses_view(),
{
    let mut v: Vec<ButtonPress> = Vec::new();
    v.push(ButtonPress { button: String::from_str("<"), state: PressState::Unpressed });
    v.push(ButtonPress { button: String::from_str(">"), state: PressState::Unpressed });
    v.push(ButtonPress { button: String::from_str("^"), state: PressState::Unpressed });
    v.push(ButtonPress { button: String::from_str("v"), state: PressState::Unpressed });
    v.push(ButtonPress { button: String::from_str("A"), state: PressState::Unpressed });
    v.push(ButtonPress { button: String::from_str("B"), state: PressState::Unpressed });
    v.push(ButtonPress { button: String::from_str("X"), state: PressState::Unpressed });
    v.push(ButtonPress { button: String::from_str("Y"), state: PressState::Unpressed });
    v.push(ButtonPress { button: String::from_str("L"), state: PressState::Unpressed });
    v.push(ButtonPress { button: String::from_str("R"), state: PressState::Unpressed });
    v.push(ButtonPress { button: String::from_str("t"), state: PressState::Unpressed });
    v.push(ButtonPress { button: String::from_str("e"), state: PressState::Unpressed });
    let r = Presses(v);
    proof {
        assert(r@ =~= default_presses_view());
    }
    r
}

/// Rebuild the whole feedback structure from the roster: one feedback
/// team per roster team, one entry per player, all buttons unpressed.
pub fn update_gui_teams(frozen: &TeamLock) -> (r: FeedbackInfo)
    ensures
        r@.len() == frozen@.len(),
        forall|t: int|
            0 <= t < frozen@.len() ==> {
                &&& (#[trigger] r@[t]).team_name == frozen@[t].name
                &&& r@[t].feedback == default_presses_view()
                &&& r@[t].players.len() == frozen@[t].players.len()
                &&& forall|p: int|
                    0 <= p < r@[t].players.len() ==> (#[trigger] r@[t].players[p]).player_name
                        == frozen@[t].players[p] && r@[t].players[p].feedback
                        == default_presses_view()
            },
{
    let n: usize = frozen.teams.len();
    let mut fbteams: Vec<Team> = Vec::new();
    let mut t: usize = 0;
    while t < n
        invariant
            n == frozen@.len(),
            n == frozen.teams@.len(),
            0 <= t <= n,
            fbteams.deep_view().len() == t,
            forall|k: int|
                0 <= k < t ==> {
                    &&& (#[trigger] fbteams.deep_view()[k]).team_name == frozen@[k].name
                    &&& fbteams.deep_view()[k].feedback == default_presses_view()
                    &&& fbteams.deep_view()[k].players.len() == frozen@[k].players.len()
                    &&& forall|p: int|
                        0 <= p < fbteams.deep_view()[k].players.len() ==> (
                        #[trigger] fbteams.deep_view()[k].players[p]).player_name == frozen@[
                            k
                        ].players[p] && fbteams.deep_view()[k].players[p].feedback
                            == default_presses_view()
                },
        decreases n - t,
    {
        let ghost pre = fbteams.deep_view();
        let team = &frozen.teams[t];
        proof {
            assert(team@ == frozen@[t as int]);
        }
        let m: usize = team.players.len();
        let mut fbplayers: Vec<Player> = Vec::new();
        let mut p: usize = 0;
        while p < m
            invariant
                m == team.players@.len(),
                m == team.players.deep_view().len(),
                0 <= p <= m,
                fbplayers.deep_view().len() == p,
                forall|q: int|
                    0 <= q < p ==> (#[trigger] fbplayers.deep_view()[q]).player_name
                        == team.players.deep_view()[q] && fbplayers.deep_view()[q].feedback
                        == default_presses_view(),
            decreases m - p,
        {
            let ghost ppre = fbplayers.deep_view();
            let fbplayer = Player {
                player_name: team.players[p].clone(),
                feedback: default_presses(),
            };
            fbplayers.push(fbplayer);
            proof {
                assert(fbplayers.deep_view() =~= ppre.push(fbplayer@));
            }
            p = p + 1;
        }
        let fb_team = Team {
            team_name: team.name.clone(),
            players: fbplayers,
            feedback: default_presses(),
        };
        fbteams.push(fb_team);
        proof {
            assert(fbteams.deep_view() =~= pre.push(fb_team@));
        }
        t = t + 1;
    }
    FeedbackInfo { teams: fbteams }
}

} // verus!
