use media_relay::audio::{process_twilio_media, BufferData, MIN_MIX_BYTES};
use media_relay::twilio_response::EventMedia;

fn media(track: &str, timestamp: &str, payload_bytes: &[u8]) -> EventMedia {
    EventMedia {
        track: track.to_string(),
        chunk: "1".to_string(),
        timestamp: timestamp.to_string(),
        payload: base64::encode(payload_bytes),
    }
}

#[test]
fn nominal_chunks_accumulate_without_silence() {
    let mut buffers = BufferData::new();
    let payload = [0x31u8; 160];
    for ts in ["0", "20", "40"] {
        let mixed = process_twilio_media(media("inbound", ts, &payload), &mut buffers);
        assert!(mixed.is_none());
    }
    assert_eq!(buffers.inbound_buffer.len(), 480);
    assert_eq!(buffers.inbound_last_timestamp, 40);
    assert!(buffers.inbound_buffer.iter().all(|b| *b == 0x31));
    assert_eq!(buffers.outbound_buffer.len(), 0);
}

#[test]
fn late_chunk_inserts_silence() {
    let mut buffers = BufferData::new();
    let payload = [0x31u8; 160];
    assert!(process_twilio_media(media("inbound", "0", &payload), &mut buffers).is_none());
    assert!(process_twilio_media(media("inbound", "100", &payload), &mut buffers).is_none());
    // gap = 100 - (0 + 20) = 80 ms -> 640 bytes of silence between the payloads
    assert_eq!(buffers.inbound_buffer.len(), 160 + 640 + 160);
    assert!(buffers.inbound_buffer[160..800].iter().all(|b| *b == 0xff));
    assert_eq!(buffers.inbound_last_timestamp, 100);
}

#[test]
fn early_timestamp_is_normalized_to_no_silence() {
    let mut buffers = BufferData::new();
    let payload = [0x42u8; 160];
    assert!(process_twilio_media(media("outbound", "0", &payload), &mut buffers).is_none());
    // 15 is less than 0 + 20 ahead: no silence, payload appended verbatim
    assert!(process_twilio_media(media("outbound", "15", &payload), &mut buffers).is_none());
    assert_eq!(buffers.outbound_buffer.len(), 320);
    assert_eq!(buffers.outbound_last_timestamp, 15);
}

#[test]
fn threshold_feed_produces_one_frame_and_drains() {
    let mut buffers = BufferData::new();
    let mut frames: Vec<Vec<u8>> = Vec::new();
    for j in 0..20u32 {
        let ts = format!("{}", 20 * j);
        let inbound = [0x01u8; 160];
        let outbound = [0x02u8; 160];
        if let Some(f) = process_twilio_media(media("inbound", &ts, &inbound), &mut buffers) {
            frames.push(f);
        }
        if let Some(f) = process_twilio_media(media("outbound", &ts, &outbound), &mut buffers) {
            frames.push(f);
        }
    }
    assert_eq!(frames.len(), 1);
    let frame = &frames[0];
    assert_eq!(frame.len(), 2 * MIN_MIX_BYTES);
    for (k, byte) in frame.iter().enumerate() {
        if k % 2 == 0 {
            assert_eq!(*byte, 0x01);
        } else {
            assert_eq!(*byte, 0x02);
        }
    }
    assert_eq!(buffers.inbound_buffer.len(), 0);
    assert_eq!(buffers.outbound_buffer.len(), 0);
}

#[test]
fn flush_drains_full_common_prefix() {
    let mut buffers = BufferData::new();
    // Outbound backlog beyond the threshold, inbound catching up afterward:
    // the flush takes the whole common prefix, not just the threshold.
    let big = [0x05u8; 4000];
    assert!(process_twilio_media(media("outbound", "0", &big), &mut buffers).is_none());
    let big_in = [0x06u8; 3900];
    let mixed = process_twilio_media(media("inbound", "0", &big_in), &mut buffers);
    let frame = mixed.expect("both legs exceed the threshold, a frame is owed");
    assert_eq!(frame.len(), 2 * 3900);
    assert_eq!(buffers.inbound_buffer.len(), 0);
    assert_eq!(buffers.outbound_buffer.len(), 100);
    assert!(buffers.outbound_buffer.len() < MIN_MIX_BYTES);
}

#[test]
fn mixed_frame_interleaves_in_leg_order() {
    let mut buffers = BufferData::new();
    let inbound: Vec<u8> = (0..3200u32).map(|k| (k % 251) as u8).collect();
    let outbound: Vec<u8> = (0..3200u32).map(|k| (k % 241) as u8).collect();
    assert!(process_twilio_media(media("inbound", "0", &inbound), &mut buffers).is_none());
    let frame = process_twilio_media(media("outbound", "0", &outbound), &mut buffers)
        .expect("both legs reached the threshold");
    assert_eq!(frame.len() % 2, 0);
    assert_eq!(frame.len(), 6400);
    for k in 0..3200usize {
        assert_eq!(frame[2 * k], inbound[k]);
        assert_eq!(frame[2 * k + 1], outbound[k]);
    }
}

#[test]
fn unparsable_timestamp_drops_event() {
    let mut buffers = BufferData::new();
    let payload = [0x31u8; 160];
    let mut event = media("inbound", "soon", &payload);
    assert!(process_twilio_media(event, &mut buffers).is_none());
    assert_eq!(buffers.inbound_buffer.len(), 0);
    assert_eq!(buffers.inbound_last_timestamp, 0);
    event = media("inbound", "4294967296", &payload);
    assert!(process_twilio_media(event, &mut buffers).is_none());
    assert_eq!(buffers.inbound_buffer.len(), 0);
    event = media("inbound", "", &payload);
    assert!(process_twilio_media(event, &mut buffers).is_none());
    assert_eq!(buffers.inbound_buffer.len(), 0);
}

#[test]
fn undecodable_payload_drops_event() {
    let mut buffers = BufferData::new();
    let event = EventMedia {
        track: "inbound".to_string(),
        chunk: "1".to_string(),
        timestamp: "0".to_string(),
        payload: "!!!not base64!!!".to_string(),
    };
    assert!(process_twilio_media(event, &mut buffers).is_none());
    assert_eq!(buffers.inbound_buffer.len(), 0);
}

#[test]
fn unknown_track_buffers_nothing() {
    let mut buffers = BufferData::new();
    let payload = [0x31u8; 160];
    assert!(process_twilio_media(media("sideband", "0", &payload), &mut buffers).is_none());
    assert_eq!(buffers.inbound_buffer.len(), 0);
    assert_eq!(buffers.outbound_buffer.len(), 0);
    assert_eq!(buffers.inbound_last_timestamp, 0);
    assert_eq!(buffers.outbound_last_timestamp, 0);
}

#[test]
fn payload_bytes_are_decoded_not_copied() {
    let mut buffers = BufferData::new();
    let raw = [0xAAu8; 160];
    let encoded = base64::encode(raw);
    let event = EventMedia {
        track: "inbound".to_string(),
        chunk: "1".to_string(),
        timestamp: "0".to_string(),
        payload: encoded.clone(),
    };
    assert!(process_twilio_media(event, &mut buffers).is_none());
    assert_eq!(buffers.inbound_buffer.len(), 160);
    assert_ne!(buffers.inbound_buffer.len(), encoded.len());
    assert!(buffers.inbound_buffer.iter().all(|b| *b == 0xAA));
}
