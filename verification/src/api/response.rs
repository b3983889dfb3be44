//! The three shapes of an answer.

use vstd::prelude::*;

verus! {

/// The name under which the answers to a command go over the wire.
pub trait MessageName {
    /// The name, as a mathematical value.
    spec fn name() -> Seq<char>;

    fn message_name() -> (name: &'static str)
        ensures
            name@ == Self::name(),
    ;
}

/// The answer to a command: it was carried out, it was turned down for a
/// reason that the client can act on, or the server failed.
#[derive(Debug)]
pub enum ApiResponse<T: MessageName> {
    Success(T),
    ClientError(String),
    ServerError(String),
}

/// Mathematical value of an [`ApiResponse`].
pub enum ApiResponseSpec {
    Success,
    ClientError(Seq<char>),
    ServerError(Seq<char>),
}

impl<T: MessageName> DeepView for ApiResponse<T> {
    type V = ApiResponseSpec;

    open spec fn deep_view(&self) -> ApiResponseSpec {
        match self {
            ApiResponse::Success(_) => ApiResponseSpec::Success,
            ApiResponse::ClientError(reason) => ApiResponseSpec::ClientError(reason@),
            ApiResponse::ServerError(reason) => ApiResponseSpec::ServerError(reason@),
        }
    }
}

} // verus!
