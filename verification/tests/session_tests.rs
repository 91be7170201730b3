use media_relay::message::Message;
use media_relay::session::{CallSession, SessionAction};
use media_relay::twilio_response::{Event, EventMedia, EventStart, EventType, MediaFormat};

fn start_event(call_sid: &str) -> Event {
    Event {
        event: "start".to_string(),
        sequence_number: "1".to_string(),
        event_type: EventType::Start(EventStart {
            account_sid: "AC0".to_string(),
            stream_sid: "MZ0".to_string(),
            call_sid: call_sid.to_string(),
            tracks: vec!["inbound".to_string(), "outbound".to_string()],
            media_format: MediaFormat {
                encoding: "audio/x-mulaw".to_string(),
                sample_rate: 8000,
                channels: 1,
            },
        }),
        stream_sid: "MZ0".to_string(),
    }
}

fn media_event(track: &str, timestamp: &str, payload_bytes: &[u8]) -> Event {
    Event {
        event: "media".to_string(),
        sequence_number: "2".to_string(),
        event_type: EventType::Media(EventMedia {
            track: track.to_string(),
            chunk: "1".to_string(),
            timestamp: timestamp.to_string(),
            payload: base64::encode(payload_bytes),
        }),
        stream_sid: "MZ0".to_string(),
    }
}

#[test]
fn first_start_announces_the_call() {
    let mut session = CallSession::new();
    let action = session.handle_event(start_event("CA123"));
    match action {
        SessionAction::Announce(id) => assert_eq!(id, "CA123"),
        _ => panic!("first start must announce"),
    }
    assert_eq!(session.call_id.as_deref(), Some("CA123"));
}

#[test]
fn second_start_is_ignored_and_id_is_immutable() {
    let mut session = CallSession::new();
    session.handle_event(start_event("CA123"));
    let action = session.handle_event(start_event("CA456"));
    assert!(matches!(action, SessionAction::Ignore));
    assert_eq!(session.call_id.as_deref(), Some("CA123"));
}

#[test]
fn media_before_start_is_discarded_without_buffering() {
    let mut session = CallSession::new();
    let action = session.handle_event(media_event("inbound", "0", &[0x31; 160]));
    assert!(matches!(action, SessionAction::Ignore));
    assert!(session.call_id.is_none());
    assert_eq!(session.buffers.inbound_buffer.len(), 0);
}

#[test]
fn zero_media_events_produce_no_frame() {
    let mut session = CallSession::new();
    let action = session.handle_event(start_event("CA123"));
    assert!(!matches!(action, SessionAction::Forward(_)));
    assert_eq!(session.buffers.inbound_buffer.len(), 0);
    assert_eq!(session.buffers.outbound_buffer.len(), 0);
}

#[test]
fn threshold_feed_forwards_exactly_one_frame() {
    let mut session = CallSession::new();
    session.handle_event(start_event("CA123"));
    let mut forwarded: Vec<Vec<u8>> = Vec::new();
    for j in 0..20u32 {
        let ts = format!("{}", 20 * j);
        for track in ["inbound", "outbound"] {
            match session.handle_event(media_event(track, &ts, &[0x07; 160])) {
                SessionAction::Forward(frame) => forwarded.push(frame),
                SessionAction::Ignore => {},
                SessionAction::Announce(_) => panic!("no announce after the first start"),
            }
        }
    }
    assert_eq!(forwarded.len(), 1);
    // 2 * MIN_MIX_BYTES: one interleaved byte pair per buffered byte
    assert_eq!(forwarded[0].len(), 6400);
}

#[test]
fn malformed_media_is_dropped_and_session_continues() {
    let mut session = CallSession::new();
    session.handle_event(start_event("CA123"));
    let bad = Event {
        event: "media".to_string(),
        sequence_number: "2".to_string(),
        event_type: EventType::Media(EventMedia {
            track: "inbound".to_string(),
            chunk: "1".to_string(),
            timestamp: "later".to_string(),
            payload: base64::encode([0x31; 160]),
        }),
        stream_sid: "MZ0".to_string(),
    };
    assert!(matches!(session.handle_event(bad), SessionAction::Ignore));
    assert_eq!(session.buffers.inbound_buffer.len(), 0);
    let good = media_event("inbound", "0", &[0x31; 160]);
    assert!(matches!(session.handle_event(good), SessionAction::Ignore));
    assert_eq!(session.buffers.inbound_buffer.len(), 160);
}

#[test]
fn default_event_type_is_an_empty_media_event() {
    match EventType::default() {
        EventType::Media(m) => {
            assert_eq!(m.track, "");
            assert_eq!(m.chunk, "");
            assert_eq!(m.timestamp, "");
            assert_eq!(m.payload, "");
        },
        EventType::Start(_) => panic!("the default event kind is media"),
    }
}

#[test]
fn message_variants_carry_their_payloads() {
    let text = Message::Text("hello".to_string());
    match text {
        Message::Text(s) => assert_eq!(s, "hello"),
        _ => panic!("text stays text"),
    }
    let binary = Message::Binary(vec![1, 2, 3]);
    match binary {
        Message::Binary(b) => assert_eq!(b, vec![1, 2, 3]),
        _ => panic!("binary stays binary"),
    }
    assert!(matches!(Message::Close(None), Message::Close(None)));
}
