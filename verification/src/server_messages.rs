//! What the engine tells the players. Each message is addressed to one
//! connected player; the transport delivers it.

use crate::drawing::{Drawing, StrokeSpec};
use crate::game::GameState;
use crate::game_settings::{GameSettings, GameSettingsSpec};
use crate::player_view::{PlayerView, PlayerViewSpec};
use vstd::prelude::*;

verus! {

/// The room as one player sees it.
#[derive(Debug)]
pub struct LobbyUpdate {
    pub room_code: String,
    pub state: GameState,
    pub round: Option<usize>,
    pub num_rounds: usize,
    pub players: Vec<PlayerView>,
}

/// Mathematical value of a [`LobbyUpdate`].
pub struct LobbyUpdateSpec {
    pub room_code: Seq<char>,
    pub state: GameState,
    pub round: Option<usize>,
    pub num_rounds: usize,
    pub players: Seq<PlayerViewSpec>,
}

impl DeepView for LobbyUpdate {
    type V = LobbyUpdateSpec;

    open spec fn deep_view(&self) -> LobbyUpdateSpec {
        LobbyUpdateSpec {
            room_code: self.room_code@,
            state: self.state,
            round: self.round,
            num_rounds: self.num_rounds,
            players: self.players.deep_view(),
        }
    }
}

/// The settings of the room.
#[derive(Debug)]
pub struct GameSettingsUpdate {
    pub settings: GameSettings,
}

/// Mathematical value of a [`GameSettingsUpdate`].
pub struct GameSettingsUpdateSpec {
    pub settings: GameSettingsSpec,
}

impl DeepView for GameSettingsUpdate {
    type V = GameSettingsUpdateSpec;

    open spec fn deep_view(&self) -> GameSettingsUpdateSpec {
        GameSettingsUpdateSpec { settings: self.settings.deep_view() }
    }
}

/// What one player is to draw in a round.
#[derive(Debug)]
pub struct DrawingParameters {
    pub round: usize,
    pub drawing_suggestion: String,
    pub imprint: Option<Drawing>,
}

/// Mathematical value of [`DrawingParameters`].
pub struct DrawingParametersSpec {
    pub round: usize,
    pub drawing_suggestion: Seq<char>,
    pub imprint: Option<Seq<StrokeSpec>>,
}

impl DeepView for DrawingParameters {
    type V = DrawingParametersSpec;

    open spec fn deep_view(&self) -> DrawingParametersSpec {
        DrawingParametersSpec {
            round: self.round,
            drawing_suggestion: self.drawing_suggestion@,
            imprint: self.imprint.deep_view(),
        }
    }
}

/// One drawing on a ballot. It does not tell who drew it.
#[derive(Debug)]
pub struct BallotItem {
    pub id: u128,
    pub suggestion: String,
    /// The player's contribution to the drawing.
    pub drawing: Drawing,
    /// The imprint that the player drew with.
    pub imprint: Drawing,
}

/// Mathematical value of a [`BallotItem`].
pub struct BallotItemSpec {
    pub id: u128,
    pub suggestion: Seq<char>,
    pub drawing: Seq<StrokeSpec>,
    pub imprint: Seq<StrokeSpec>,
}

impl DeepView for BallotItem {
    type V = BallotItemSpec;

    open spec fn deep_view(&self) -> BallotItemSpec {
        BallotItemSpec {
            id: self.id,
            suggestion: self.suggestion@,
            drawing: self.drawing.deep_view(),
            imprint: self.imprint.deep_view(),
        }
    }
}

/// One drawing on the ballot of one player, who can vote for it or not.
#[derive(Debug)]
pub struct VotableBallotItem {
    pub ballot_item: BallotItem,
    pub is_voting_enabled: bool,
}

/// Mathematical value of a [`VotableBallotItem`].
pub struct VotableBallotItemSpec {
    pub ballot_item: BallotItemSpec,
    pub is_voting_enabled: bool,
}

impl DeepView for VotableBallotItem {
    type V = VotableBallotItemSpec;

    open spec fn deep_view(&self) -> VotableBallotItemSpec {
        VotableBallotItemSpec {
            ballot_item: self.ballot_item.deep_view(),
            is_voting_enabled: self.is_voting_enabled,
        }
    }
}

/// The ballot of one player for a round.
#[derive(Debug)]
pub struct VotingBallot {
    pub round: usize,
    pub ballot: Vec<VotableBallotItem>,
}

/// Mathematical value of a [`VotingBallot`].
pub struct VotingBallotSpec {
    pub round: usize,
    pub ballot: Seq<VotableBallotItemSpec>,
}

impl DeepView for VotingBallot {
    type V = VotingBallotSpec;

    open spec fn deep_view(&self) -> VotingBallotSpec {
        VotingBallotSpec { round: self.round, ballot: self.ballot.deep_view() }
    }
}

/// The drawing of the game that got the most votes.
#[derive(Debug)]
pub struct Results {
    pub highest_rated_drawing: Drawing,
    pub imprint: Option<Drawing>,
    pub num_votes: i32,
    pub drawing_suggestion: String,
}

/// Mathematical value of [`Results`].
pub struct ResultsSpec {
    pub highest_rated_drawing: Seq<StrokeSpec>,
    pub imprint: Option<Seq<StrokeSpec>>,
    pub num_votes: i32,
    pub drawing_suggestion: Seq<char>,
}

impl DeepView for Results {
    type V = ResultsSpec;

    open spec fn deep_view(&self) -> ResultsSpec {
        ResultsSpec {
            highest_rated_drawing: self.highest_rated_drawing.deep_view(),
            imprint: self.imprint.deep_view(),
            num_votes: self.num_votes,
            drawing_suggestion: self.drawing_suggestion@,
        }
    }
}

/// A message for one player.
#[derive(Debug)]
pub enum ServerMessage {
    LobbyUpdate(LobbyUpdate),
    GameSettingsUpdate(GameSettingsUpdate),
    DrawingParameters(DrawingParameters),
    VotingBallot(VotingBallot),
    Results(Results),
}

/// Mathematical value of a [`ServerMessage`].
pub enum ServerMessageSpec {
    LobbyUpdate(LobbyUpdateSpec),
    GameSettingsUpdate(GameSettingsUpdateSpec),
    DrawingParameters(DrawingParametersSpec),
    VotingBallot(VotingBallotSpec),
    Results(ResultsSpec),
}

impl DeepView for ServerMessage {
    type V = ServerMessageSpec;

    open spec fn deep_view(&self) -> ServerMessageSpec {
        match self {
            ServerMessage::LobbyUpdate(m) => ServerMessageSpec::LobbyUpdate(m.deep_view()),
            ServerMessage::GameSettingsUpdate(m) => ServerMessageSpec::GameSettingsUpdate(
                m.deep_view(),
            ),
            ServerMessage::DrawingParameters(m) => ServerMessageSpec::DrawingParameters(
                m.deep_view(),
            ),
            ServerMessage::VotingBallot(m) => ServerMessageSpec::VotingBallot(m.deep_view()),
            ServerMessage::Results(m) => ServerMessageSpec::Results(m.deep_view()),
        }
    }
}

/// A message and the player it is for.
#[derive(Debug)]
pub struct Outbound {
    pub recipient: u128,
    pub message: ServerMessage,
}

/// Mathematical value of an [`Outbound`].
pub struct OutboundSpec {
    pub recipient: u128,
    pub message: ServerMessageSpec,
}

impl DeepView for Outbound {
    type V = OutboundSpec;

    open spec fn deep_view(&self) -> OutboundSpec {
        OutboundSpec { recipient: self.recipient, message: self.message.deep_view() }
    }
}

} // verus!
