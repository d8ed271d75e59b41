//! Core logic of a realtime connector to the bitbank exchange: the
//! two-layer text framing protocol, channel subscription, order-book
//! reconciliation from diff/snapshot streams, and request signing.

pub mod book;
pub mod decimal;
pub mod errors;
pub mod framer;
pub mod reconciler;
pub mod response;
pub mod signer;
pub mod urls;
