//! Request signing for private calls: HMAC-SHA256 over the timestamp,
//! the time window and the request's body or path, hex-encoded.
//!
//! The signing string is the decimal timestamp in milliseconds, then the
//! decimal window in milliseconds, then exactly one of the serialized
//! JSON body (when the request has one) or the path and query (when it
//! has none).

use vstd::prelude::*;
use hmac::Mac;

verus! {

// ---------------------------------------------------------------------
// Decimal rendering of machine words
// ---------------------------------------------------------------------

/// The digit character of one decimal digit.
pub open spec fn digit_char(d: nat) -> char {
    if d == 0 {
        '0'
    } else if d == 1 {
        '1'
    } else if d == 2 {
        '2'
    } else if d == 3 {
        '3'
    } else if d == 4 {
        '4'
    } else if d == 5 {
        '5'
    } else if d == 6 {
        '6'
    } else if d == 7 {
        '7'
    } else if d == 8 {
        '8'
    } else {
        '9'
    }
}

/// The decimal rendering of a number, most significant digit first, no
/// leading zero but for the number zero itself.
pub open spec fn dec_str_of(n: nat) -> Seq<char>
    decreases n,
{
    if n < 10 {
        seq![digit_char(n)]
    } else {
        dec_str_of(n / 10).push(digit_char(n % 10))
    }
}

/// Render a machine word in decimal.
pub fn u64_to_dec(n: u64) -> (r: String)
    ensures
        r@ == dec_str_of(n as nat),
{
    proof {
        reveal_strlit("0");
        reveal_strlit("1");
        reveal_strlit("2");
        reveal_strlit("3");
        reveal_strlit("4");
        reveal_strlit("5");
        reveal_strlit("6");
        reveal_strlit("7");
        reveal_strlit("8");
        reveal_strlit("9");
    }
    if n == 0 {
        let r = String::from_str("0");
        proof {
            assert(r@ =~= dec_str_of(0));
        }
        return r;
    }
    let mut m = n;
    let mut r = String::new();
    while m > 0
        invariant
            m > 0 ==> dec_str_of(n as nat) == dec_str_of(m as nat) + r@,
            m == 0 ==> dec_str_of(n as nat) == r@,
        decreases m,
    {
        let d = m % 10;
        let ds = match d {
            0 => "0",
            1 => "1",
            2 => "2",
            3 => "3",
            4 => "4",
            5 => "5",
            6 => "6",
            7 => "7",
            8 => "8",
            _ => "9",
        };
        proof {
            reveal_strlit("0");
            reveal_strlit("1");
            reveal_strlit("2");
            reveal_strlit("3");
            reveal_strlit("4");
            reveal_strlit("5");
            reveal_strlit("6");
            reveal_strlit("7");
            reveal_strlit("8");
            reveal_strlit("9");
            assert(ds@ =~= seq![digit_char((m % 10) as nat)]);
            if m >= 10 {
                assert(dec_str_of(m as nat) == dec_str_of((m as nat) / 10).push(
                    digit_char((m as nat) % 10),
                ));
                assert(dec_str_of((m as nat) / 10) + (ds@ + r@) =~= dec_str_of(m as nat) + r@);
            } else {
                assert(dec_str_of(m as nat) =~= ds@);
            }
            assert((m as nat) / 10 == ((m / 10) as nat));
        }
        let rest = r;
        r = String::from_str(ds);
        r.append(rest.as_str());
        m = m / 10;
    }
    r
}

// ---------------------------------------------------------------------
// The trusted cryptographic calls
// ---------------------------------------------------------------------

/// Names the HMAC-SHA256 tag: a function of key and message alone, the
/// same in every process and on every machine.
pub uninterp spec fn hmac_sha256_of(key: Seq<char>, msg: Seq<char>) -> Seq<u8>;

/// Relies on hmac's `Hmac<sha2::Sha256>`: `new_from_slice` accepts a key
/// of any length (never an error), and the finalized tag is one SHA-256
/// output of 32 bytes, a function of key and message alone.
#[verifier::external_body]
fn hmac_sha256(key: &str, msg: &str) -> (r: Vec<u8>)
    ensures
        r@ == hmac_sha256_of(key@, msg@),
        r@.len() == 32,
{
    let mut mac = hmac::Hmac::<sha2::Sha256>::new_from_slice(key.as_bytes()).unwrap();
    mac.update(msg.as_bytes());
    mac.finalize().into_bytes().to_vec()
}

/// The lowercase hex digit of one value below sixteen.
pub open spec fn hex_digit(d: nat) -> char {
    if d < 10 {
        digit_char(d)
    } else if d == 10 {
        'a'
    } else if d == 11 {
        'b'
    } else if d == 12 {
        'c'
    } else if d == 13 {
        'd'
    } else if d == 14 {
        'e'
    } else {
        'f'
    }
}

/// Lowercase hex of a byte string: two digits per byte, high nibble
/// first.
pub open spec fn hex_of(b: Seq<u8>) -> Seq<char>
    decreases b.len(),
{
    if b.len() == 0 {
        Seq::empty()
    } else {
        hex_of(b.drop_last()) + seq![
            hex_digit((b.last() / 16) as nat),
            hex_digit((b.last() % 16) as nat),
        ]
    }
}

/// Relies on hex::encode: lowercase hex, two digits per byte, high
/// nibble first.
#[verifier::external_body]
fn hex_encode(b: &Vec<u8>) -> (r: String)
    ensures
        r@ == hex_of(b@),
{
    hex::encode(b.as_slice())
}

// ---------------------------------------------------------------------
// The signature
// ---------------------------------------------------------------------

/// The signing string: decimal timestamp, decimal window, then the
/// signed payload.
pub open spec fn signing_string(ts: nat, window: nat, payload: Seq<char>) -> Seq<char> {
    dec_str_of(ts) + dec_str_of(window) + payload
}

/// The signature carried in the request headers.
pub open spec fn signature_v(secret: Seq<char>, ts: nat, window: nat, payload: Seq<char>) -> Seq<
    char,
> {
    hex_of(hmac_sha256_of(secret, signing_string(ts, window, payload)))
}

/// LAW: the signature is a function of the secret, the timestamp, the
/// window and the signed payload alone: equal inputs always reproduce
/// the same signature.
pub proof fn lemma_signature_deterministic(
    secret1: Seq<char>,
    ts1: nat,
    window1: nat,
    payload1: Seq<char>,
    secret2: Seq<char>,
    ts2: nat,
    window2: nat,
    payload2: Seq<char>,
)
    requires
        secret1 == secret2,
        ts1 == ts2,
        window1 == window2,
        payload1 == payload2,
    ensures
        signature_v(secret1, ts1, window1, payload1) == signature_v(
            secret2,
            ts2,
            window2,
            payload2,
        ),
{
}

/// Compute the signature over the signing string.
pub fn sign(secret: &str, timestamp_ms: u64, window_ms: u64, payload: &str) -> (r: String)
    ensures
        r@ == signature_v(secret@, timestamp_ms as nat, window_ms as nat, payload@),
{
    let mut content = u64_to_dec(timestamp_ms);
    let window = u64_to_dec(window_ms);
    content.append(window.as_str());
    content.append(payload);
    let tag = hmac_sha256(secret, content.as_str());
    hex_encode(&tag)
}

/// The payload a request signs: its serialized body when it has one,
/// else its path and query — exactly one of the two.
pub fn signing_payload<'a>(path_and_query: &'a str, body: &'a str) -> (r: &'a str)
    ensures
        r@ == if body@.len() == 0 {
            path_and_query@
        } else {
            body@
        },
{
    if body.is_empty() {
        path_and_query
    } else {
        body
    }
}

// ---------------------------------------------------------------------
// Authentication headers
// ---------------------------------------------------------------------

/// Missing credentials: a configuration error, failing before any
/// request is sent.
#[derive(Debug, PartialEq, Eq)]
pub enum ConfigError {
    MissingKey,
    MissingSecret,
}

/// The four authentication headers of a private call.
#[derive(Debug)]
pub struct AuthHeaders {
    /// The API key, sent as ACCESS-KEY.
    pub key: String,
    /// The timestamp in milliseconds, sent as ACCESS-REQUEST-TIME.
    /// Captured immediately before signing: a stale timestamp risks
    /// silent rejection by the server-side window check.
    pub timestamp_ms: u64,
    /// The tolerance in milliseconds, sent as ACCESS-TIME-WINDOW.
    pub window_ms: u64,
    /// The hex HMAC-SHA256 tag, sent as ACCESS-SIGNATURE.
    pub signature: String,
}

/// Build the authentication headers for one private call, or fail
/// before any request is sent when a credential is missing.
pub fn auth_headers(
    key: &Option<String>,
    secret: &Option<String>,
    timestamp_ms: u64,
    window_ms: u64,
    path_and_query: &str,
    body: &str,
) -> (r: Result<AuthHeaders, ConfigError>)
    ensures
        match r {
            Ok(h) => {
                &&& key matches Some(k) && h.key@ == k@
                &&& secret is Some
                &&& h.timestamp_ms == timestamp_ms
                &&& h.window_ms == window_ms
                &&& h.signature@ == signature_v(
                    secret.unwrap()@,
                    timestamp_ms as nat,
                    window_ms as nat,
                    if body@.len() == 0 {
                        path_and_query@
                    } else {
                        body@
                    },
                )
            },
            Err(ConfigError::MissingKey) => key is None,
            Err(ConfigError::MissingSecret) => key is Some && secret is None,
        },
{
    let k = match key {
        Some(k) => k,
        None => {
            return Err(ConfigError::MissingKey);
        },
    };
    let s = match secret {
        Some(s) => s,
        None => {
            return Err(ConfigError::MissingSecret);
        },
    };
    let payload = signing_payload(path_and_query, body);
    let signature = sign(s.as_str(), timestamp_ms, window_ms, payload);
    Ok(
        AuthHeaders {
            key: k.clone(),
            timestamp_ms,
            window_ms,
            signature,
        },
    )
}

} // verus!
