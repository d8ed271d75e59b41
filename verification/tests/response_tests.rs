use bitbank_core::response::{handle_response_core, BitbankHandleError};
use bitbank_core::urls::{BitbankHttpUrl, BitbankWebSocketUrl};

const RATE_LIMIT_CODE: i64 = 70009;

fn body(s: &str) -> Vec<u8> {
    s.as_bytes().to_vec()
}

#[test]
fn successful_envelope_is_ok() {
    let b = body("{\"success\":1,\"data\":{}}");
    assert_eq!(handle_response_core(true, &b, RATE_LIMIT_CODE), Ok(()));
}

#[test]
fn success_status_without_envelope_is_ok() {
    // a public endpoint may answer without the success field
    let b = body("{\"data\":[1,2,3]}");
    assert_eq!(handle_response_core(true, &b, RATE_LIMIT_CODE), Ok(()));
}

#[test]
fn failure_envelope_is_an_api_error_with_the_raw_payload() {
    let b = body("{\"success\":0,\"data\":{\"code\":20001}}");
    assert_eq!(
        handle_response_core(true, &b, RATE_LIMIT_CODE),
        Err(BitbankHandleError::ApiError(b.clone()))
    );
}

#[test]
fn reserved_code_is_a_rate_limit_error() {
    let b = body("{\"success\":0,\"code\":70009}");
    assert_eq!(
        handle_response_core(true, &b, RATE_LIMIT_CODE),
        Err(BitbankHandleError::ReuqestLimitExceeded(b.clone()))
    );
    // any other code stays a business error
    let b2 = body("{\"success\":0,\"code\":20001}");
    assert_eq!(
        handle_response_core(true, &b2, RATE_LIMIT_CODE),
        Err(BitbankHandleError::ApiError(b2.clone()))
    );
}

#[test]
fn error_status_with_envelope_is_an_api_error() {
    let b = body("{\"success\":0,\"code\":20001}");
    assert_eq!(
        handle_response_core(false, &b, RATE_LIMIT_CODE),
        Err(BitbankHandleError::ApiError(b.clone()))
    );
}

#[test]
fn error_status_with_reserved_code_is_a_rate_limit_error() {
    let b = body("{\"success\":0,\"code\":70009}");
    assert_eq!(
        handle_response_core(false, &b, RATE_LIMIT_CODE),
        Err(BitbankHandleError::ReuqestLimitExceeded(b.clone()))
    );
}

#[test]
fn unparsable_body_is_a_parse_error() {
    let b = body("<html>gateway timeout</html>");
    assert_eq!(
        handle_response_core(true, &b, RATE_LIMIT_CODE),
        Err(BitbankHandleError::ParseError)
    );
    assert_eq!(
        handle_response_core(false, &b, RATE_LIMIT_CODE),
        Err(BitbankHandleError::ParseError)
    );
}

#[test]
fn base_urls_are_exact() {
    assert_eq!(BitbankHttpUrl::Private.as_str(), "https://api.bitbank.cc/v1");
    assert_eq!(BitbankHttpUrl::Public.as_str(), "https://public.bitbank.cc");
    assert_eq!(BitbankHttpUrl::Unmodified.as_str(), "");
    assert_eq!(
        BitbankWebSocketUrl::Default.as_str(),
        "wss://stream.bitbank.cc/socket.io/?EIO=4&transport=websocket"
    );
    assert_eq!(BitbankWebSocketUrl::Unmodified.as_str(), "");
}
