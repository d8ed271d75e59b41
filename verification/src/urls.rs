//! The base URLs of the exchange's request/response and streaming
//! endpoints.

use vstd::prelude::*;

verus! {

/// The base url of the request/response interface.
#[derive(Debug, Eq, PartialEq, Copy, Clone)]
pub enum BitbankHttpUrl {
    /// The authenticated endpoint.
    Private,
    /// The public market-data endpoint.
    Public,
    /// Leave the url untouched.
    Unmodified,
}

/// The base url of the streaming interface.
#[derive(Debug, Eq, PartialEq, Copy, Clone)]
#[non_exhaustive]
pub enum BitbankWebSocketUrl {
    /// The streaming endpoint.
    Default,
    /// Leave the url untouched.
    Unmodified,
}

pub open spec fn http_url_str(u: BitbankHttpUrl) -> Seq<char> {
    match u {
        BitbankHttpUrl::Private => "https://api.bitbank.cc/v1"@,
        BitbankHttpUrl::Public => "https://public.bitbank.cc"@,
        BitbankHttpUrl::Unmodified => ""@,
    }
}

pub open spec fn websocket_url_str(u: BitbankWebSocketUrl) -> Seq<char> {
    match u {
        BitbankWebSocketUrl::Default => "wss://stream.bitbank.cc/socket.io/?EIO=4&transport=websocket"@,
        BitbankWebSocketUrl::Unmodified => ""@,
    }
}

impl BitbankHttpUrl {
    /// The base URL that this variant represents.
    pub fn as_str(&self) -> (r: &'static str)
        ensures
            r@ == http_url_str(*self),
    {
        match self {
            BitbankHttpUrl::Private => "https://api.bitbank.cc/v1",
            BitbankHttpUrl::Public => "https://public.bitbank.cc",
            BitbankHttpUrl::Unmodified => "",
        }
    }
}

impl BitbankWebSocketUrl {
    /// The base URL that this variant represents.
    pub fn as_str(&self) -> (r: &'static str)
        ensures
            r@ == websocket_url_str(*self),
    {
        match self {
            BitbankWebSocketUrl::Default => "wss://stream.bitbank.cc/socket.io/?EIO=4&transport=websocket",
            BitbankWebSocketUrl::Unmodified => "",
        }
    }
}

} // verus!
