//! The answer to a player who says whether they are ready.

use crate::api::response::{ApiResponse, ApiResponseSpec, MessageName};
use crate::errors::SetPlayerReadyError;
use vstd::prelude::*;

verus! {

/// What a client is sent when the command was carried out.
#[derive(Debug)]
pub struct Response;

impl MessageName for Response {
    open spec fn name() -> Seq<char> {
        "set_player_ready"@
    }

    fn message_name() -> (name: &'static str) {
        "set_player_ready"
    }
}

/// The answer that an outcome gets.
pub open spec fn answer(outcome: Result<(), SetPlayerReadyError>) -> ApiResponseSpec {
    match outcome {
        Ok(_) => ApiResponseSpec::Success,
        Err(SetPlayerReadyError::ClientIsNotInAGame) => ApiResponseSpec::ClientError("client is not in a game"@),
    }
}

impl vstd::std_specs::convert::FromSpecImpl<Result<(), SetPlayerReadyError>> for ApiResponse<Response> {
    open spec fn obeys_from_spec() -> bool {
        false
    }

    open spec fn from_spec(value: Result<(), SetPlayerReadyError>) -> Self {
        ApiResponse::Success(Response)
    }
}

impl From<Result<(), SetPlayerReadyError>> for ApiResponse<Response> {
    fn from(value: Result<(), SetPlayerReadyError>) -> (response: Self)
        ensures
            response.deep_view() == answer(value),
    {
        match value {
            Ok(_) => ApiResponse::Success(Response),
            Err(e) => match e {
                SetPlayerReadyError::ClientIsNotInAGame => ApiResponse::ClientError("client is not in a game".to_owned()),
            },
        }
    }
}

} // verus!
