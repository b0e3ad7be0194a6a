use vstd::prelude::*;

verus! {

/// The body of an API response: a plain message or an issued token.
pub enum ResponseBody {
    Message(String),
    AuthToken(String),
}

/// An API response wrapper around a body.
pub struct Response {
    pub body: ResponseBody,
}

/// An error response as the routing layer reports it: a bad request with a
/// serialized body, or an authorization failure with a message.
#[derive(Debug, Clone, PartialEq, Eq)]
pub enum NetworkResponse {
    BadRequest(String),
    Unauthorized(String),
}

} // verus!
