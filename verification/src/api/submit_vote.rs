//! The answer to a ballot handed in.

use crate::api::response::{ApiResponse, ApiResponseSpec, MessageName};
use crate::errors::SubmitVoteError;
use vstd::prelude::*;

verus! {

/// What a client is sent when the command was carried out.
#[derive(Debug)]
pub struct Response;

impl MessageName for Response {
    open spec fn name() -> Seq<char> {
        "submit_vote"@
    }

    fn message_name() -> (name: &'static str) {
        "submit_vote"
    }
}

/// The answer that an outcome gets.
pub open spec fn answer(outcome: Result<(), SubmitVoteError>) -> ApiResponseSpec {
    match outcome {
        Ok(_) => ApiResponseSpec::Success,
        Err(SubmitVoteError::ClientIsNotInAGame) => ApiResponseSpec::ClientError("client is not in a game"@),
        Err(SubmitVoteError::GameHasNotStarted) => ApiResponseSpec::ClientError("game has not started"@),
        Err(SubmitVoteError::MaximumVotesExceeded) => ApiResponseSpec::ClientError("maximum votes exceeded"@),
        Err(SubmitVoteError::ClientVotedForSelf) => ApiResponseSpec::ClientError("client cannot vote for their own drawing"@),
        Err(SubmitVoteError::InvalidDrawingId) => ApiResponseSpec::ClientError("votes included an invalid drawing id"@),
        Err(SubmitVoteError::NotEnoughPrompts) => ApiResponseSpec::ServerError("not enough prompts for the next round"@),
    }
}

impl vstd::std_specs::convert::FromSpecImpl<Result<(), SubmitVoteError>> for ApiResponse<Response> {
    open spec fn obeys_from_spec() -> bool {
        false
    }

    open spec fn from_spec(value: Result<(), SubmitVoteError>) -> Self {
        ApiResponse::Success(Response)
    }
}

impl From<Result<(), SubmitVoteError>> for ApiResponse<Response> {
    fn from(value: Result<(), SubmitVoteError>) -> (response: Self)
        ensures
            response.deep_view() == answer(value),
    {
        match value {
            Ok(_) => ApiResponse::Success(Response),
            Err(e) => match e {
                SubmitVoteError::ClientIsNotInAGame => ApiResponse::ClientError("client is not in a game".to_owned()),
                SubmitVoteError::GameHasNotStarted => ApiResponse::ClientError("game has not started".to_owned()),
                SubmitVoteError::MaximumVotesExceeded => ApiResponse::ClientError("maximum votes exceeded".to_owned()),
                SubmitVoteError::ClientVotedForSelf => ApiResponse::ClientError("client cannot vote for their own drawing".to_owned()),
                SubmitVoteError::InvalidDrawingId => ApiResponse::ClientError("votes included an invalid drawing id".to_owned()),
                SubmitVoteError::NotEnoughPrompts => ApiResponse::ServerError("not enough prompts for the next round".to_owned()),
            },
        }
    }
}

} // verus!
