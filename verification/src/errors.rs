//! The closed sets of reasons for which a command is turned down.

use vstd::prelude::*;

verus! {

/// Why a prompt deck could not be read.
#[derive(Debug, Clone, Copy, PartialEq, Eq, Structural)]
pub enum DeckError {
    /// The text is not a JSON array of strings.
    InvalidJson,
}

/// Why a player cannot join a room.
#[derive(Debug, Clone, Copy, PartialEq, Eq, Structural)]
pub enum JoinGameError {
    ClientIsAlreadyInAGame,
    RoomDoesNotExist,
    GameFull,
    GameAlreadyStarted,
}

/// Why a game does not start.
#[derive(Debug, Clone, Copy, PartialEq, Eq, Structural)]
pub enum StartGameError {
    ClientIsNotInAGame,
    ClientIsNotTheHost,
    GameAlreadyStarted,
    MinimumPlayersNotReached,
    /// The decks handed over hold fewer prompts than the first round needs.
    /// This is a failure of the server, not of the client.
    NotEnoughPrompts,
}

/// Why a room does not go back to waiting for players.
#[derive(Debug, Clone, Copy, PartialEq, Eq, Structural)]
pub enum PlayAgainError {
    ClientIsNotInAGame,
    ClientIsNotTheHost,
    GameIsNotOver,
}

/// Why it is not noted whether a player is ready.
#[derive(Debug, Clone, Copy, PartialEq, Eq, Structural)]
pub enum SetPlayerReadyError {
    ClientIsNotInAGame,
}

/// Why a room is not opened.
#[derive(Debug, Clone, Copy, PartialEq, Eq, Structural)]
pub enum CreateGameError {
    ClientIsAlreadyInAGame,
    /// The code made for the room is the code of a room that exists. This
    /// is a failure of the server, not of the client.
    RoomCodeTaken,
}

/// Why settings are not taken.
#[derive(Debug, Clone, Copy, PartialEq, Eq, Structural)]
pub enum UpdateGameSettingsError {
    ClientIsNotInAGame,
    ClientIsNotTheHost,
    GameAlreadyStarted,
    InvalidNumRounds,
    InvalidDrawingTimeLimit,
    InvalidVotingTimeLimit,
    DeckDoesNotExist,
    SettingRemovesAllDecks,
}

/// Why a drawing is not taken.
#[derive(Debug, Clone, Copy, PartialEq, Eq, Structural)]
pub enum SubmitDrawingError {
    ClientIsNotInAGame,
    DrawingSubmittedForWrongRound,
    DrawingWasAlreadySubmitted,
}

/// Why a ballot is not counted.
#[derive(Debug, Clone, Copy, PartialEq, Eq, Structural)]
pub enum SubmitVoteError {
    ClientIsNotInAGame,
    GameHasNotStarted,
    MaximumVotesExceeded,
    ClientVotedForSelf,
    InvalidDrawingId,
    /// The ballot was counted and ended the vote, but the deck holds too few
    /// prompts for the next round, so the game is over. This is a failure of
    /// the server, not of the client.
    NotEnoughPrompts,
}

/// What failure of the server the closing of a connection brings to light.
#[derive(Debug, Clone, Copy, PartialEq, Eq, Structural)]
pub enum DisconnectError {
    /// The player who left was the last to vote, and the deck holds too few
    /// prompts for the next round, so the game is over.
    NotEnoughPrompts,
}

} // verus!
