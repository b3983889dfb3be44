//! The answer to a request to play again.

use crate::api::response::{ApiResponse, ApiResponseSpec, MessageName};
use crate::errors::PlayAgainError;
use vstd::prelude::*;

verus! {

/// What a client is sent when the command was carried out.
#[derive(Debug)]
pub struct Response;

impl MessageName for Response {
    open spec fn name() -> Seq<char> {
        "play_again"@
    }

    fn message_name() -> (name: &'static str) {
        "play_again"
    }
}

/// The answer that an outcome gets.
pub open spec fn answer(outcome: Result<(), PlayAgainError>) -> ApiResponseSpec {
    match outcome {
        Ok(_) => ApiResponseSpec::Success,
        Err(PlayAgainError::ClientIsNotInAGame) => ApiResponseSpec::ClientError("client is not in a game"@),
        Err(PlayAgainError::ClientIsNotTheHost) => ApiResponseSpec::ClientError("client is not the host"@),
        Err(PlayAgainError::GameIsNotOver) => ApiResponseSpec::ClientError("game is not over"@),
    }
}

impl vstd::std_specs::convert::FromSpecImpl<Result<(), PlayAgainError>> for ApiResponse<Response> {
    open spec fn obeys_from_spec() -> bool {
        false
    }

    open spec fn from_spec(value: Result<(), PlayAgainError>) -> Self {
        ApiResponse::Success(Response)
    }
}

impl From<Result<(), PlayAgainError>> for ApiResponse<Response> {
    fn from(value: Result<(), PlayAgainError>) -> (response: Self)
        ensures
            response.deep_view() == answer(value),
    {
        match value {
            Ok(_) => ApiResponse::Success(Response),
            Err(e) => match e {
                PlayAgainError::ClientIsNotInAGame => ApiResponse::ClientError("client is not in a game".to_owned()),
                PlayAgainError::ClientIsNotTheHost => ApiResponse::ClientError("client is not the host".to_owned()),
                PlayAgainError::GameIsNotOver => ApiResponse::ClientError("game is not over".to_owned()),
            },
        }
    }
}

} // verus!
