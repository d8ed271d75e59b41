//! Errors of the streaming path.

use vstd::prelude::*;

verus! {

/// What can go wrong while framing or reconciling the stream.
#[derive(Debug, PartialEq, Eq)]
pub enum StreamError {
    /// A payload, price, quantity or sequence string failed to parse.
    /// Non-fatal at the framing layer, where the frame is dropped;
    /// fatal at the order-book layer, where skipping it silently would
    /// leave the book permanently inconsistent.
    ParseError,
    /// An event contradicted a stated protocol guarantee, such as an
    /// unexpected frame type or a zero-quantity snapshot row. Escalated
    /// loudly, never silently absorbed.
    ProtocolViolation,
}

} // verus!
