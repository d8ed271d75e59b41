use bitbank_core::signer::{auth_headers, sign, signing_payload, u64_to_dec, ConfigError};
use hmac::Mac;

/// The same tag computed straight through the underlying crates.
fn reference_signature(secret: &str, message: &str) -> String {
    let mut mac =
        hmac::Hmac::<sha2::Sha256>::new_from_slice(secret.as_bytes()).expect("any key length");
    mac.update(message.as_bytes());
    hex::encode(mac.finalize().into_bytes())
}

#[test]
fn renders_u64_in_decimal() {
    assert_eq!(u64_to_dec(0), "0");
    assert_eq!(u64_to_dec(7), "7");
    assert_eq!(u64_to_dec(1000), "1000");
    assert_eq!(u64_to_dec(1234567890), "1234567890");
    assert_eq!(u64_to_dec(u64::MAX), "18446744073709551615");
}

#[test]
fn signature_matches_direct_computation() {
    let s = sign("topsecret", 1700000000000, 1000, "/v1/user/assets");
    assert_eq!(
        s,
        reference_signature("topsecret", "17000000000001000/v1/user/assets")
    );
    assert_eq!(s.len(), 64);
    assert!(s.chars().all(|c| c.is_ascii_hexdigit() && !c.is_ascii_uppercase()));
}

#[test]
fn signature_is_reproducible() {
    let a = sign("k", 123, 1000, "{\"pair\":\"btc_jpy\"}");
    let b = sign("k", 123, 1000, "{\"pair\":\"btc_jpy\"}");
    assert_eq!(a, b);
}

#[test]
fn changing_any_input_changes_the_signature() {
    let base = sign("k", 123, 1000, "/path");
    assert_ne!(base, sign("K", 123, 1000, "/path"));
    assert_ne!(base, sign("k", 124, 1000, "/path"));
    assert_ne!(base, sign("k", 123, 1001, "/path"));
    assert_ne!(base, sign("k", 123, 1000, "/path2"));
}

#[test]
fn body_wins_over_path_when_present() {
    assert_eq!(signing_payload("/path", ""), "/path");
    assert_eq!(signing_payload("/path", "{\"a\":1}"), "{\"a\":1}");
    let with_body = sign("k", 1, 2, signing_payload("/p", "{\"a\":1}"));
    assert_eq!(with_body, reference_signature("k", "12{\"a\":1}"));
}

#[test]
fn auth_headers_carry_all_four_values() {
    let h = auth_headers(
        &Some("api-key".to_string()),
        &Some("api-secret".to_string()),
        1700000000000,
        1000,
        "/v1/user/assets",
        "",
    )
    .expect("credentials present");
    assert_eq!(h.key, "api-key");
    assert_eq!(h.timestamp_ms, 1700000000000);
    assert_eq!(h.window_ms, 1000);
    assert_eq!(
        h.signature,
        reference_signature("api-secret", "17000000000001000/v1/user/assets")
    );
}

#[test]
fn missing_credentials_fail_before_any_request() {
    assert_eq!(
        auth_headers(&None, &Some("s".to_string()), 1, 2, "/p", "").unwrap_err(),
        ConfigError::MissingKey
    );
    assert_eq!(
        auth_headers(&Some("k".to_string()), &None, 1, 2, "/p", "").unwrap_err(),
        ConfigError::MissingSecret
    );
}
