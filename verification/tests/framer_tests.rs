use bitbank_core::errors::StreamError;
use bitbank_core::framer::{join_request, InboundFrame, TransportFramer};

fn framer(channels: Vec<&str>) -> TransportFramer {
    TransportFramer::new(channels.into_iter().map(|c| c.to_string()).collect())
}

fn text(s: &str) -> InboundFrame {
    InboundFrame::Text(s.to_string())
}

#[test]
fn join_request_exact_wire_form() {
    assert_eq!(
        join_request("depth_whole_btc_jpy"),
        "42[\"join-room\",\"depth_whole_btc_jpy\"]"
    );
}

#[test]
fn ping_yields_exactly_one_pong_and_no_events() {
    let f = framer(vec!["depth_diff_btc_jpy"]);
    let out = f.handle_message(&text("2")).unwrap();
    assert_eq!(out.outbound, vec!["3".to_string()]);
    assert!(out.events.is_empty());
}

#[test]
fn handshake_frame_is_fixed() {
    let f = framer(vec![]);
    assert_eq!(f.handle_start(), vec!["40".to_string()]);
}

#[test]
fn connect_ack_joins_every_channel() {
    let f = framer(vec!["depth_whole_btc_jpy", "transactions_btc_jpy"]);
    let out = f.handle_message(&text("40{\"sid\":\"abc\"}")).unwrap();
    assert_eq!(
        out.outbound,
        vec![
            "42[\"join-room\",\"depth_whole_btc_jpy\"]".to_string(),
            "42[\"join-room\",\"transactions_btc_jpy\"]".to_string(),
        ]
    );
    assert!(out.events.is_empty());
}

#[test]
fn connect_ack_with_bad_json_is_dropped() {
    let f = framer(vec!["depth_whole_btc_jpy"]);
    let out = f.handle_message(&text("40{oops")).unwrap();
    assert!(out.outbound.is_empty());
    assert!(out.events.is_empty());
}

#[test]
fn event_payload_is_surfaced() {
    let f = framer(vec![]);
    let payload = "[\"message\",{\"room_name\":\"depth_diff_btc_jpy\"}]";
    let msg = format!("42{}", payload);
    let out = f.handle_message(&text(&msg)).unwrap();
    assert!(out.outbound.is_empty());
    assert_eq!(out.events, vec![payload.to_string()]);
}

#[test]
fn event_with_bad_json_is_dropped() {
    let f = framer(vec![]);
    let out = f.handle_message(&text("42[\"message\"")).unwrap();
    assert!(out.outbound.is_empty());
    assert!(out.events.is_empty());
}

#[test]
fn open_close_and_unknown_tags_are_dropped() {
    let f = framer(vec!["c"]);
    for msg in ["0{\"sid\":\"x\"}", "1", "3", "5", "", "4", "41", "49abc"] {
        let out = f.handle_message(&text(msg)).unwrap();
        assert!(out.outbound.is_empty(), "for frame {:?}", msg);
        assert!(out.events.is_empty(), "for frame {:?}", msg);
    }
}

#[test]
fn non_text_frames_are_escalated() {
    let f = framer(vec![]);
    for frame in [
        InboundFrame::Binary(vec![1, 2]),
        InboundFrame::Ping(vec![]),
        InboundFrame::Pong(vec![]),
    ] {
        assert!(matches!(
            f.handle_message(&frame),
            Err(StreamError::ProtocolViolation)
        ));
    }
}
