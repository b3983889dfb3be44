//! The answer to a request to start the game.

use crate::api::response::{ApiResponse, ApiResponseSpec, MessageName};
use crate::errors::StartGameError;
use vstd::prelude::*;

verus! {

/// What a client is sent when the command was carried out.
#[derive(Debug)]
pub struct Response;

impl MessageName for Response {
    open spec fn name() -> Seq<char> {
        "start_game"@
    }

    fn message_name() -> (name: &'static str) {
        "start_game"
    }
}

/// The answer that an outcome gets.
pub open spec fn answer(outcome: Result<(), StartGameError>) -> ApiResponseSpec {
    match outcome {
        Ok(_) => ApiResponseSpec::Success,
        Err(StartGameError::ClientIsNotInAGame) => ApiResponseSpec::ClientError("client is not in a game"@),
        Err(StartGameError::ClientIsNotTheHost) => ApiResponseSpec::ClientError("client is not the host"@),
        Err(StartGameError::GameAlreadyStarted) => ApiResponseSpec::ClientError("game already started"@),
        Err(StartGameError::MinimumPlayersNotReached) => ApiResponseSpec::ClientError("not enough players to start game"@),
        Err(StartGameError::NotEnoughPrompts) => ApiResponseSpec::ServerError("not enough prompts to start game"@),
    }
}

impl vstd::std_specs::convert::FromSpecImpl<Result<(), StartGameError>> for ApiResponse<Response> {
    open spec fn obeys_from_spec() -> bool {
        false
    }

    open spec fn from_spec(value: Result<(), StartGameError>) -> Self {
        ApiResponse::Success(Response)
    }
}

impl From<Result<(), StartGameError>> for ApiResponse<Response> {
    fn from(value: Result<(), StartGameError>) -> (response: Self)
        ensures
            response.deep_view() == answer(value),
    {
        match value {
            Ok(_) => ApiResponse::Success(Response),
            Err(e) => match e {
                StartGameError::ClientIsNotInAGame => ApiResponse::ClientError("client is not in a game".to_owned()),
                StartGameError::ClientIsNotTheHost => ApiResponse::ClientError("client is not the host".to_owned()),
                StartGameError::GameAlreadyStarted => ApiResponse::ClientError("game already started".to_owned()),
                StartGameError::MinimumPlayersNotReached => ApiResponse::ClientError("not enough players to start game".to_owned()),
                StartGameError::NotEnoughPrompts => ApiResponse::ServerError("not enough prompts to start game".to_owned()),
            },
        }
    }
}

} // verus!
