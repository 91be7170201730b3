//! Structured events carried by the ingress media stream.
//!
//! One connection carries one call: a single `Start` event naming the call,
//! followed by `Media` events, one per audio chunk and leg. Parsing the text
//! frames into these types is a transport concern and happens outside the
//! library; the library consumes the already-typed events.

use vstd::prelude::*;

verus! {

/// One event from the ingress stream.
pub struct Event {
    pub event: String,
    pub sequence_number: String,
    pub event_type: EventType,
    pub stream_sid: String,
}

/// The payload of an event: either the one-time call announcement or a media chunk.
pub enum EventType {
    Start(EventStart),
    Media(EventMedia),
}

/// The call announcement: names the call and describes the media format.
pub struct EventStart {
    pub account_sid: String,
    pub stream_sid: String,
    pub call_sid: String,
    pub tracks: Vec<String>,
    pub media_format: MediaFormat,
}

/// Description of the audio encoding used by the media events.
pub struct MediaFormat {
    pub encoding: String,
    pub sample_rate: u32,
    pub channels: u32,
}

/// One chunk of audio for one leg: the track name (`"inbound"` or
/// `"outbound"`), a millisecond timestamp as decimal text, and the samples as
/// a base64 string.
pub struct EventMedia {
    pub track: String,
    pub chunk: String,
    pub timestamp: String,
    pub payload: String,
}

impl Default for EventType {
    /// An empty media event, matching the event kind assumed when none is named.
    fn default() -> (r: Self)
        ensures
            r matches EventType::Media(m) && m.track@ == Seq::<char>::empty()
                && m.chunk@ == Seq::<char>::empty() && m.timestamp@ == Seq::<char>::empty()
                && m.payload@ == Seq::<char>::empty(),
    {
        EventType::Media(
            EventMedia {
                track: String::new(),
                chunk: String::new(),
                timestamp: String::new(),
                payload: String::new(),
            },
        )
    }
}

} // verus!
