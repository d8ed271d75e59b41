//! Classification of request/response outcomes.
//!
//! A failed call answers with the envelope `{"success":0,"code":<int>}`.
//! One reserved code means the rate limit was exceeded; callers must be
//! able to tell it from a generic business error, for their own backoff
//! decisions. A body that does not parse is a parse error.

use vstd::prelude::*;
use crate::decimal::copy_u8_vec;

verus! {

/// Names what `serde_json::from_slice::<serde_json::Value>` accepts:
/// whether bytes parse as JSON depends on the bytes alone.
pub uninterp spec fn is_json_bytes(b: Seq<u8>) -> bool;

/// Relies on serde_json::from_slice::<serde_json::Value>: parsing is a
/// function of the input bytes alone.
#[verifier::external_body]
fn json_valid_bytes(b: &Vec<u8>) -> (r: bool)
    ensures
        r == is_json_bytes(b@),
{
    serde_json::from_slice::<serde_json::Value>(b.as_slice()).is_ok()
}

/// Names the integer at a top-level key of a JSON body: a function of
/// the bytes and the key alone; nothing when the body is not JSON, the
/// key is absent, or the value is no integer fitting the type.
pub uninterp spec fn json_i64_field(b: Seq<u8>, key: Seq<char>) -> Option<i64>;

/// Relies on serde_json::from_slice::<serde_json::Value>,
/// serde_json::Value::get and serde_json::Value::as_i64: the looked-up
/// integer is a function of the bytes and the key alone.
#[verifier::external_body]
fn json_field_i64(b: &Vec<u8>, key: &str) -> (r: Option<i64>)
    ensures
        r == json_i64_field(b@, key@),
{
    match serde_json::from_slice::<serde_json::Value>(b.as_slice()) {
        Ok(v) => match v.get(key) {
            Some(f) => f.as_i64(),
            None => None,
        },
        Err(_) => None,
    }
}

/// How a call failed. The raw payload travels with the error.
#[derive(Debug, PartialEq, Eq)]
pub enum BitbankHandleError {
    /// The server answered with a failure envelope.
    ApiError(Vec<u8>),
    /// The failure envelope carried the reserved rate-limit code, kept
    /// apart so callers can apply backoff.
    ReuqestLimitExceeded(Vec<u8>),
    /// The body could not be parsed.
    ParseError,
}

/// The four ways a response can be judged.
pub enum ResponseVerdict {
    /// The caller may parse the typed payload.
    Success,
    /// The body is not JSON.
    MalformedBody,
    /// The failure envelope carries the reserved rate-limit code.
    RateLimited,
    /// The failure envelope carries any other outcome.
    BusinessError,
}

/// The verdict owed for given facts about the response: its HTTP
/// status, what its body's envelope holds, and the exchange-defined
/// rate-limit code.
pub open spec fn response_verdict(
    status_success: bool,
    body: Seq<u8>,
    rate_limit_code: i64,
) -> ResponseVerdict {
    if !is_json_bytes(body) {
        ResponseVerdict::MalformedBody
    } else if status_success && json_i64_field(body, "success"@) != Some(0i64) {
        ResponseVerdict::Success
    } else if json_i64_field(body, "code"@) == Some(rate_limit_code) {
        ResponseVerdict::RateLimited
    } else {
        ResponseVerdict::BusinessError
    }
}

/// Classify one response. `status_success` is whether the HTTP status
/// was a success; `rate_limit_code` is the exchange-defined code that
/// means the rate limit was exceeded. `Ok` means the caller may parse
/// the typed payload; an error carries the raw body.
pub fn handle_response_core(
    status_success: bool,
    body: &Vec<u8>,
    rate_limit_code: i64,
) -> (r: Result<(), BitbankHandleError>)
    ensures
        match response_verdict(status_success, body@, rate_limit_code) {
            ResponseVerdict::Success => r == Ok::<(), BitbankHandleError>(()),
            ResponseVerdict::MalformedBody => r == Err::<(), BitbankHandleError>(
                BitbankHandleError::ParseError,
            ),
            ResponseVerdict::RateLimited => (r matches Err(
                BitbankHandleError::ReuqestLimitExceeded(b),
            ) && b@ == body@),
            ResponseVerdict::BusinessError => (r matches Err(BitbankHandleError::ApiError(b))
                && b@ == body@),
        },
{
    if !json_valid_bytes(body) {
        return Err(BitbankHandleError::ParseError);
    }
    if status_success {
        match json_field_i64(body, "success") {
            Some(v) => {
                if v != 0 {
                    return Ok(());
                }
            },
            None => {
                return Ok(());
            },
        }
    }
    match json_field_i64(body, "code") {
        Some(c) => {
            if c == rate_limit_code {
                Err(BitbankHandleError::ReuqestLimitExceeded(copy_u8_vec(body)))
            } else {
                Err(BitbankHandleError::ApiError(copy_u8_vec(body)))
            }
        },
        None => Err(BitbankHandleError::ApiError(copy_u8_vec(body))),
    }
}

} // verus!
