//! The two-layer text framing protocol spoken over the persistent
//! stream, and channel subscription.
//!
//! The outer tag is a frame's first character: `0` open, `1` close,
//! `2` ping (answered at once with a bare `3`), `4` message. For a
//! message frame the second character is the inner tag: `0` connect-ack,
//! which triggers one join request per configured channel, `2` event,
//! whose payload is surfaced upward when it is valid JSON. A malformed
//! frame is dropped and the stream keeps processing; a frame kind this
//! text protocol never uses is escalated as a protocol violation.

use vstd::prelude::*;
use crate::errors::StreamError;

verus! {

/// Names what `serde_json::from_str::<serde_json::Value>` accepts:
/// whether a string is valid JSON depends on its characters alone.
pub uninterp spec fn json_ok(s: Seq<char>) -> bool;

/// Relies on serde_json::from_str::<serde_json::Value>: parsing is a
/// function of the input string alone.
#[verifier::external_body]
fn json_valid(s: &str) -> (r: bool)
    ensures
        r == json_ok(s@),
{
    serde_json::from_str::<serde_json::Value>(s).is_ok()
}

/// The views of a list of strings.
pub open spec fn strs_view(s: Seq<String>) -> Seq<Seq<char>> {
    s.map(|i: int, x: String| x@)
}

// ---------------------------------------------------------------------
// Join requests
// ---------------------------------------------------------------------

/// The join request for one channel, exactly as it goes on the wire.
pub open spec fn join_request_spec(channel: Seq<char>) -> Seq<char> {
    "42[\"join-room\",\""@ + channel + "\"]"@
}

/// Build the message frame that subscribes one channel.
pub fn join_request(channel: &str) -> (r: String)
    ensures
        r@ == join_request_spec(channel@),
{
    let mut r = String::from_str("42[\"join-room\",\"");
    r.append(channel);
    r.append("\"]");
    r
}

pub open spec fn join_requests_spec(channels: Seq<Seq<char>>) -> Seq<Seq<char>> {
    channels.map(|i: int, c: Seq<char>| join_request_spec(c))
}

/// One join request per configured channel, in configuration order.
/// Emitted on every connect-ack, so a fresh connection always ends
/// subscribed to the full set.
pub fn join_requests(channels: &Vec<String>) -> (r: Vec<String>)
    ensures
        strs_view(r@) == join_requests_spec(strs_view(channels@)),
{
    let n = channels.len();
    let mut r: Vec<String> = Vec::new();
    let mut i: usize = 0;
    while i < n
        invariant
            i <= n,
            n == channels@.len(),
            r@.len() == i,
            forall|j: int|
                0 <= j < i ==> #[trigger] r@[j]@ == join_request_spec(channels@[j]@),
        decreases n - i,
    {
        r.push(join_request(channels[i].as_str()));
        i += 1;
    }
    proof {
        assert(strs_view(r@) =~= join_requests_spec(strs_view(channels@)));
    }
    r
}

// ---------------------------------------------------------------------
// Frames
// ---------------------------------------------------------------------

/// A frame as the transport delivers it. Only text frames occur in this
/// protocol; the others indicate a broken assumption.
pub enum InboundFrame {
    Text(String),
    Binary(Vec<u8>),
    Ping(Vec<u8>),
    Pong(Vec<u8>),
}

/// What handling one frame produces: frames to send back, and event
/// payloads to surface upward.
pub struct FramerOutput {
    pub outbound: Vec<String>,
    pub events: Vec<String>,
}

pub ghost struct FramerOutputV {
    pub outbound: Seq<Seq<char>>,
    pub events: Seq<Seq<char>>,
}

impl FramerOutput {
    pub open spec fn view_v(&self) -> FramerOutputV {
        FramerOutputV { outbound: strs_view(self.outbound@), events: strs_view(self.events@) }
    }
}

pub open spec fn no_output() -> FramerOutputV {
    FramerOutputV { outbound: Seq::empty(), events: Seq::empty() }
}

/// What one text frame produces, given the configured channels: the
/// heartbeat reply to a ping, the join requests on a connect-ack, the
/// payload of a well-formed event, and nothing for everything else.
pub open spec fn text_frame_response(channels: Seq<Seq<char>>, msg: Seq<char>) -> FramerOutputV {
    if msg.len() == 0 {
        no_output()
    } else if msg[0] == '2' {
        FramerOutputV { outbound: seq!["3"@], events: Seq::empty() }
    } else if msg[0] == '4' {
        if msg.len() < 2 {
            no_output()
        } else if msg[1] == '0' {
            if json_ok(msg.skip(2)) {
                FramerOutputV { outbound: join_requests_spec(channels), events: Seq::empty() }
            } else {
                no_output()
            }
        } else if msg[1] == '2' {
            if json_ok(msg.skip(2)) {
                FramerOutputV { outbound: Seq::empty(), events: seq![msg.skip(2)] }
            } else {
                no_output()
            }
        } else {
            no_output()
        }
    } else {
        no_output()
    }
}

/// Decodes and encodes the framing protocol for one connection. Holds
/// nothing but the immutable configured channel list.
pub struct TransportFramer {
    pub channels: Vec<String>,
}

impl TransportFramer {
    pub open spec fn channels_v(&self) -> Seq<Seq<char>> {
        strs_view(self.channels@)
    }

    pub fn new(channels: Vec<String>) -> (r: TransportFramer)
        ensures
            r.channels_v() == strs_view(channels@),
    {
        TransportFramer { channels }
    }

    /// The fixed handshake frame sent on every fresh connection.
    pub fn handle_start(&self) -> (r: Vec<String>)
        ensures
            r@.len() == 1,
            r@[0]@ == "40"@,
    {
        let mut r: Vec<String> = Vec::new();
        r.push(String::from_str("40"));
        r
    }

    /// Handle one inbound frame: an empty or unrecognized text frame is
    /// dropped, a ping is answered at once with a bare `3`, a
    /// connect-ack triggers the join requests, a well-formed event
    /// surfaces its payload. A non-text frame never occurs in this
    /// protocol, so it is escalated, never absorbed.
    pub fn handle_message(&self, frame: &InboundFrame) -> (r: Result<FramerOutput, StreamError>)
        ensures
            match frame {
                InboundFrame::Text(msg) => (r matches Ok(out) && out.view_v()
                    == text_frame_response(self.channels_v(), msg@)),
                _ => (r matches Err(e) && e == StreamError::ProtocolViolation),
            },
    {
        let msg = match frame {
            InboundFrame::Text(m) => m,
            _ => {
                return Err(StreamError::ProtocolViolation);
            },
        };
        let n = msg.as_str().unicode_len();
        if n == 0 {
            return Ok(Self::empty_output());
        }
        let c0 = msg.as_str().get_char(0);
        if c0 == '2' {
            let mut outbound: Vec<String> = Vec::new();
            outbound.push(String::from_str("3"));
            let out = FramerOutput { outbound, events: Vec::new() };
            proof {
                assert(out.view_v().outbound =~= seq!["3"@]);
                assert(out.view_v().events =~= Seq::<Seq<char>>::empty());
            }
            return Ok(out);
        }
        if c0 != '4' {
            return Ok(Self::empty_output());
        }
        if n < 2 {
            return Ok(Self::empty_output());
        }
        let c1 = msg.as_str().get_char(1);
        if c1 != '0' && c1 != '2' {
            return Ok(Self::empty_output());
        }
        let payload = msg.as_str().substring_char(2, n);
        proof {
            assert(payload@ =~= msg@.skip(2));
        }
        if !json_valid(payload) {
            return Ok(Self::empty_output());
        }
        if c1 == '0' {
            let out = FramerOutput { outbound: join_requests(&self.channels), events: Vec::new() };
            proof {
                assert(out.view_v().events =~= Seq::<Seq<char>>::empty());
            }
            Ok(out)
        } else {
            let mut events: Vec<String> = Vec::new();
            events.push(payload.to_owned());
            let out = FramerOutput { outbound: Vec::new(), events };
            proof {
                assert(out.view_v().outbound =~= Seq::<Seq<char>>::empty());
                assert(out.view_v().events =~= seq![msg@.skip(2)]);
            }
            Ok(out)
        }
    }

    fn empty_output() -> (r: FramerOutput)
        ensures
            r.view_v() == no_output(),
    {
        let r = FramerOutput { outbound: Vec::new(), events: Vec::new() };
        proof {
            assert(r.view_v().outbound =~= Seq::<Seq<char>>::empty());
            assert(r.view_v().events =~= Seq::<Seq<char>>::empty());
        }
        r
    }
}

} // verus!
