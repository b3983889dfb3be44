//! The answer to settings handed in.

use crate::api::response::{ApiResponse, ApiResponseSpec, MessageName};
use crate::errors::UpdateGameSettingsError;
use vstd::prelude::*;

verus! {

/// What a client is sent when the command was carried out.
#[derive(Debug)]
pub struct Response;

impl MessageName for Response {
    open spec fn name() -> Seq<char> {
        "update_game_settings"@
    }

    fn message_name() -> (name: &'static str) {
        "update_game_settings"
    }
}

/// The answer that an outcome gets.
pub open spec fn answer(outcome: Result<(), UpdateGameSettingsError>) -> ApiResponseSpec {
    match outcome {
        Ok(_) => ApiResponseSpec::Success,
        Err(UpdateGameSettingsError::ClientIsNotInAGame) => ApiResponseSpec::ClientError("client is not in a game"@),
        Err(UpdateGameSettingsError::ClientIsNotTheHost) => ApiResponseSpec::ClientError("client is not the host"@),
        Err(UpdateGameSettingsError::GameAlreadyStarted) => ApiResponseSpec::ClientError("game already started"@),
        Err(UpdateGameSettingsError::InvalidNumRounds) => ApiResponseSpec::ClientError("rounds invalid"@),
        Err(UpdateGameSettingsError::InvalidDrawingTimeLimit) => ApiResponseSpec::ClientError("drawing_phase_time_limit invalid"@),
        Err(UpdateGameSettingsError::InvalidVotingTimeLimit) => ApiResponseSpec::ClientError("voting_phase_time_limit invalid"@),
        Err(UpdateGameSettingsError::DeckDoesNotExist) => ApiResponseSpec::ClientError("deck does not exist"@),
        Err(UpdateGameSettingsError::SettingRemovesAllDecks) => ApiResponseSpec::ClientError("cannot have 0 decks"@),
    }
}

impl vstd::std_specs::convert::FromSpecImpl<Result<(), UpdateGameSettingsError>> for ApiResponse<Response> {
    open spec fn obeys_from_spec() -> bool {
        false
    }

    open spec fn from_spec(value: Result<(), UpdateGameSettingsError>) -> Self {
        ApiResponse::Success(Response)
    }
}

impl From<Result<(), UpdateGameSettingsError>> for ApiResponse<Response> {
    fn from(value: Result<(), UpdateGameSettingsError>) -> (response: Self)
        ensures
            response.deep_view() == answer(value),
    {
        match value {
            Ok(_) => ApiResponse::Success(Response),
            Err(e) => match e {
                UpdateGameSettingsError::ClientIsNotInAGame => ApiResponse::ClientError("client is not in a game".to_owned()),
                UpdateGameSettingsError::ClientIsNotTheHost => ApiResponse::ClientError("client is not the host".to_owned()),
                UpdateGameSettingsError::GameAlreadyStarted => ApiResponse::ClientError("game already started".to_owned()),
                UpdateGameSettingsError::InvalidNumRounds => ApiResponse::ClientError("rounds invalid".to_owned()),
                UpdateGameSettingsError::InvalidDrawingTimeLimit => ApiResponse::ClientError("drawing_phase_time_limit invalid".to_owned()),
                UpdateGameSettingsError::InvalidVotingTimeLimit => ApiResponse::ClientError("voting_phase_time_limit invalid".to_owned()),
                UpdateGameSettingsError::DeckDoesNotExist => ApiResponse::ClientError("deck does not exist".to_owned()),
                UpdateGameSettingsError::SettingRemovesAllDecks => ApiResponse::ClientError("cannot have 0 decks".to_owned()),
            },
        }
    }
}

} // verus!
