//! The statuses that are answered, and the answers to requests that failed.
use vstd::prelude::*;

use crate::pages::GlobalContext;

verus! {

/// The statuses that the handlers answer with.
#[derive(Debug, Clone, Copy, PartialEq, Eq, Structural)]
pub enum Status {
    Success,
    BadRequest,
    InternalServerError,
}

impl Status {
    /// The HTTP status code.
    pub open spec fn number(self) -> u16 {
        match self {
            Status::Success => 200,
            Status::BadRequest => 400,
            Status::InternalServerError => 500,
        }
    }

    /// The HTTP status code.
    pub fn code(self) -> (r: u16)
        ensures
            r == self.number(),
    {
        match self {
            Status::Success => 200,
            Status::BadRequest => 400,
            Status::InternalServerError => 500,
        }
    }
}

/// The reason phrase that `rocket::http::Status::reason_lossy` gives for a status code.
pub uninterp spec fn reason_phrase(code: u16) -> Seq<char>;

/// Calls `rocket::http::Status::reason_lossy` on the status with this code. The phrase is
/// looked up in a fixed table, so it depends on the code alone; which phrase it is for which
/// code is not stated.
#[verifier::external_body]
fn reason_lossy(code: u16) -> (r: String)
    ensures
        r@ == reason_phrase(code),
{
    rocket::http::Status::new(code).reason_lossy().to_string()
}

/// An error as the API answers it.
#[derive(Debug)]
pub struct JsonError {
    pub code: u16,
    pub info: String,
}

/// What the error page shows.
#[derive(Debug)]
pub struct ErrorContext {
    pub global: GlobalContext,
    pub status: u16,
    pub reason: String,
}

/// The answer of the API for a status code and its reason.
pub fn json_error(code: u16, reason: String) -> (r: JsonError)
    ensures
        r.code == code,
        r.info == reason,
{
    JsonError { code, info: reason }
}

/// The answer of the API to a request that failed with a status code.
pub fn api_error(code: u16) -> (r: JsonError)
    ensures
        r.code == code,
        r.info@ == reason_phrase(code),
{
    json_error(code, reason_lossy(code))
}

/// The error page for a status code and its reason.
pub fn error_context(global: GlobalContext, code: u16, reason: String) -> (r: ErrorContext)
    ensures
        r.global == global,
        r.status == code,
        r.reason == reason,
{
    ErrorContext { global, status: code, reason }
}

/// The error page for a request that failed with a status code.
pub fn error_page(global: GlobalContext, code: u16) -> (r: ErrorContext)
    ensures
        r.global == global,
        r.status == code,
        r.reason@ == reason_phrase(code),
{
    error_context(global, code, reason_lossy(code))
}

} // verus!
