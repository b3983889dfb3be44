//! The answer to a drawing handed in.

use crate::api::response::{ApiResponse, ApiResponseSpec, MessageName};
use crate::errors::SubmitDrawingError;
use vstd::prelude::*;

verus! {

/// What a client is sent when the command was carried out.
#[derive(Debug)]
pub struct Response;

impl MessageName for Response {
    open spec fn name() -> Seq<char> {
        "submit_drawing"@
    }

    fn message_name() -> (name: &'static str) {
        "submit_drawing"
    }
}

/// The answer that an outcome gets.
pub open spec fn answer(outcome: Result<(), SubmitDrawingError>) -> ApiResponseSpec {
    match outcome {
        Ok(_) => ApiResponseSpec::Success,
        Err(SubmitDrawingError::ClientIsNotInAGame) => ApiResponseSpec::ClientError("client is not in a game"@),
        Err(SubmitDrawingError::DrawingSubmittedForWrongRound) => ApiResponseSpec::ClientError("drawing submitted for wrong round"@),
        Err(SubmitDrawingError::DrawingWasAlreadySubmitted) => ApiResponseSpec::ClientError("drawing was already submitted for this round"@),
    }
}

impl vstd::std_specs::convert::FromSpecImpl<Result<(), SubmitDrawingError>> for ApiResponse<Response> {
    open spec fn obeys_from_spec() -> bool {
        false
    }

    open spec fn from_spec(value: Result<(), SubmitDrawingError>) -> Self {
        ApiResponse::Success(Response)
    }
}

impl From<Result<(), SubmitDrawingError>> for ApiResponse<Response> {
    fn from(value: Result<(), SubmitDrawingError>) -> (response: Self)
        ensures
            response.deep_view() == answer(value),
    {
        match value {
            Ok(_) => ApiResponse::Success(Response),
            Err(e) => match e {
                SubmitDrawingError::ClientIsNotInAGame => ApiResponse::ClientError("client is not in a game".to_owned()),
                SubmitDrawingError::DrawingSubmittedForWrongRound => ApiResponse::ClientError("drawing submitted for wrong round".to_owned()),
                SubmitDrawingError::DrawingWasAlreadySubmitted => ApiResponse::ClientError("drawing was already submitted for this round".to_owned()),
            },
        }
    }
}

} // verus!
