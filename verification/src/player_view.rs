//! Players as the room keeps them, and as other players see them.

use vstd::prelude::*;

verus! {

/// What a player is doing.
#[derive(Debug, Clone, Copy, PartialEq, Eq, Structural)]
pub enum PlayerState {
    NotReady,
    Ready,
    Drawing,
    DrawingDone,
    Voting,
    VotingDone,
}

/// What a lobby update shows of one player.
#[derive(Debug)]
pub struct PlayerView {
    pub name: String,
    pub state: PlayerState,
    pub score: i64,
    /// This player is the host of the game.
    pub is_host: bool,
    /// The client receiving this corresponds to this player.
    pub is_you: bool,
    /// This player's connection closed while the game was running.
    pub is_disconnected: bool,
}

/// Mathematical value of a [`PlayerView`].
pub struct PlayerViewSpec {
    pub name: Seq<char>,
    pub state: PlayerState,
    pub score: i64,
    pub is_host: bool,
    pub is_you: bool,
    pub is_disconnected: bool,
}

impl DeepView for PlayerView {
    type V = PlayerViewSpec;

    open spec fn deep_view(&self) -> PlayerViewSpec {
        PlayerViewSpec {
            name: self.name@,
            state: self.state,
            score: self.score,
            is_host: self.is_host,
            is_you: self.is_you,
            is_disconnected: self.is_disconnected,
        }
    }
}

/// A member of a room.
#[derive(Debug)]
pub struct Player {
    /// Identity of the connection that plays.
    pub id: u128,
    pub name: String,
    /// The connected player with the lowest rank is the host. Ranks are
    /// handed out in joining order.
    pub host_rank: usize,
    pub state: PlayerState,
    pub score: i64,
    pub is_disconnected: bool,
}

/// Mathematical value of a [`Player`].
pub struct PlayerSpec {
    pub id: u128,
    pub name: Seq<char>,
    pub host_rank: usize,
    pub state: PlayerState,
    pub score: i64,
    pub is_disconnected: bool,
}

impl DeepView for Player {
    type V = PlayerSpec;

    open spec fn deep_view(&self) -> PlayerSpec {
        PlayerSpec {
            id: self.id,
            name: self.name@,
            host_rank: self.host_rank,
            state: self.state,
            score: self.score,
            is_disconnected: self.is_disconnected,
        }
    }
}

impl PlayerSpec {
    /// A player who has just joined under `name` with rank `number`.
    pub open spec fn fresh(id: u128, name: Seq<char>, number: usize) -> PlayerSpec {
        PlayerSpec {
            id,
            name,
            host_rank: number,
            state: PlayerState::NotReady,
            score: 0,
            is_disconnected: false,
        }
    }

    /// What others are shown of this player.
    pub open spec fn to_view(self, is_host: bool, is_you: bool) -> PlayerViewSpec {
        PlayerViewSpec {
            name: self.name,
            state: self.state,
            score: self.score,
            is_host,
            is_you,
            is_disconnected: self.is_disconnected,
        }
    }
}

impl Player {
    /// A player who has just joined under `name` with rank `number`.
    pub fn new(id: u128, name: String, number: usize) -> (player: Player)
        ensures
            player.deep_view() == PlayerSpec::fresh(id, name@, number),
    {
        Player {
            id,
            name,
            host_rank: number,
            state: PlayerState::NotReady,
            score: 0,
            is_disconnected: false,
        }
    }

    /// What a player of the room is shown of this player.
    pub fn to_view(&self, is_host: bool, is_you: bool) -> (view: PlayerView)
        ensures
            view.deep_view() == self.deep_view().to_view(is_host, is_you),
    {
        PlayerView {
            name: self.name.clone(),
            state: self.state,
            score: self.score,
            is_host,
            is_you,
            is_disconnected: self.is_disconnected,
        }
    }
}

} // verus!
