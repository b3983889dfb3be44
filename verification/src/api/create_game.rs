//! The answer to a request to open a room.

use crate::api::response::{ApiResponse, ApiResponseSpec, MessageName};
use crate::errors::CreateGameError;
use vstd::prelude::*;

verus! {

/// What a client is sent when the command was carried out.
#[derive(Debug)]
pub struct Response;

impl MessageName for Response {
    open spec fn name() -> Seq<char> {
        "create_game"@
    }

    fn message_name() -> (name: &'static str) {
        "create_game"
    }
}

/// The answer that an outcome gets.
pub open spec fn answer(outcome: Result<(), CreateGameError>) -> ApiResponseSpec {
    match outcome {
        Ok(_) => ApiResponseSpec::Success,
        Err(CreateGameError::ClientIsAlreadyInAGame) => ApiResponseSpec::ClientError(
            "client is already in a game"@,
        ),
        Err(CreateGameError::RoomCodeTaken) => ApiResponseSpec::ServerError(
            "room code is taken"@,
        ),
    }
}

impl vstd::std_specs::convert::FromSpecImpl<Result<(), CreateGameError>> for ApiResponse<Response> {
    open spec fn obeys_from_spec() -> bool {
        false
    }

    open spec fn from_spec(value: Result<(), CreateGameError>) -> Self {
        ApiResponse::Success(Response)
    }
}

impl From<Result<(), CreateGameError>> for ApiResponse<Response> {
    fn from(value: Result<(), CreateGameError>) -> (response: Self)
        ensures
            response.deep_view() == answer(value),
    {
        match value {
            Ok(_) => ApiResponse::Success(Response),
            Err(e) => match e {
                CreateGameError::ClientIsAlreadyInAGame => ApiResponse::ClientError(
                    "client is already in a game".to_owned(),
                ),
                CreateGameError::RoomCodeTaken => ApiResponse::ServerError(
                    "room code is taken".to_owned(),
                ),
            },
        }
    }
}

} // verus!
