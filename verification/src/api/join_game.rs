//! The answer to a request to join a room.

use crate::api::response::{ApiResponse, ApiResponseSpec, MessageName};
use crate::errors::JoinGameError;
use vstd::prelude::*;

verus! {

/// What a client is sent when the command was carried out.
#[derive(Debug)]
pub struct Response;

impl MessageName for Response {
    open spec fn name() -> Seq<char> {
        "join_game"@
    }

    fn message_name() -> (name: &'static str) {
        "join_game"
    }
}

/// The answer that an outcome gets.
pub open spec fn answer(outcome: Result<(), JoinGameError>) -> ApiResponseSpec {
    match outcome {
        Ok(_) => ApiResponseSpec::Success,
        Err(JoinGameError::ClientIsAlreadyInAGame) => ApiResponseSpec::ClientError("client is already in a game"@),
        Err(JoinGameError::RoomDoesNotExist) => ApiResponseSpec::ClientError("room does not exist"@),
        Err(JoinGameError::GameFull) => ApiResponseSpec::ClientError("game is full"@),
        Err(JoinGameError::GameAlreadyStarted) => ApiResponseSpec::ClientError("game already started"@),
    }
}

impl vstd::std_specs::convert::FromSpecImpl<Result<(), JoinGameError>> for ApiResponse<Response> {
    open spec fn obeys_from_spec() -> bool {
        false
    }

    open spec fn from_spec(value: Result<(), JoinGameError>) -> Self {
        ApiResponse::Success(Response)
    }
}

impl From<Result<(), JoinGameError>> for ApiResponse<Response> {
    fn from(value: Result<(), JoinGameError>) -> (response: Self)
        ensures
            response.deep_view() == answer(value),
    {
        match value {
            Ok(_) => ApiResponse::Success(Response),
            Err(e) => match e {
                JoinGameError::ClientIsAlreadyInAGame => ApiResponse::ClientError("client is already in a game".to_owned()),
                JoinGameError::RoomDoesNotExist => ApiResponse::ClientError("room does not exist".to_owned()),
                JoinGameError::GameFull => ApiResponse::ClientError("game is full".to_owned()),
                JoinGameError::GameAlreadyStarted => ApiResponse::ClientError("game already started".to_owned()),
            },
        }
    }
}

} // verus!
