//! Per-call session orchestration.
//!
//! One ingress connection carries one call. The session starts without a
//! call identifier, learns it from the first `Start` event (which is also
//! the moment the identifier is handed to the egress task and the call's
//! registry entry is created), and from then on routes every `Media` event
//! through the audio mixer, forwarding any produced mixed frame upstream.
//! The relay loop around the session performs the I/O its returned actions
//! name; the decisions themselves are all made here.

use vstd::prelude::*;

use crate::audio::{
    base64_decode_of, init_model, parse_u32_of, process_twilio_media, step_media, BufferData,
    MediaModel,
};
use crate::twilio_response::{Event, EventType};

verus! {

/// What the relay loop must do after one ingress event.
pub enum SessionAction {
    /// Nothing to do: the event was out of protocol, malformed, or produced
    /// no mixed frame.
    Ignore,
    /// The first `Start` event arrived: hand this call identifier to the
    /// egress task and create the call's registry entry.
    Announce(String),
    /// A mixed frame to send on the upstream transcription connection.
    Forward(Vec<u8>),
}

/// What handling a media event in an active session means: a malformed
/// timestamp or payload leaves the state as it was with nothing to do;
/// otherwise the buffering state takes one mixer step, and the action
/// forwards exactly the frame that step produced, if any.
pub open spec fn media_outcome(
    pre: crate::audio::BufferModel,
    media: crate::twilio_response::EventMedia,
    post: crate::audio::BufferModel,
    action: SessionAction,
) -> bool {
    match (parse_u32_of(media.timestamp@), base64_decode_of(media.payload@)) {
        (Some(ts), Some(payload)) => {
            let e = MediaModel { track: media.track@, ts, payload };
            let sm = step_media(pre, e);
            post == sm.0 && (match (action, sm.1) {
                (SessionAction::Forward(v), Some(f)) => v@ == f,
                (SessionAction::Ignore, None) => true,
                _ => false,
            })
        },
        _ => post == pre && action is Ignore,
    }
}

/// One call's orchestration state: the call identifier, once learned, and
/// the two-leg buffering state driving the mixer.
pub struct CallSession {
    pub call_id: Option<String>,
    pub buffers: BufferData,
}

impl CallSession {
    /// A session that has not yet seen its `Start` event.
    pub fn new() -> (s: Self)
        ensures
            s.call_id is None,
            s.buffers.model() == init_model(),
    {
        CallSession { call_id: None, buffers: BufferData::new() }
    }

    /// Advances the session by one ingress event and names the action the
    /// relay loop owes for it.
    ///
    /// The first `Start` event fixes the call identifier and is announced;
    /// a `Start` while one is already fixed is a protocol violation and is
    /// ignored, as is a `Media` event before any `Start`. A `Media` event in
    /// an active session runs the mixer: a malformed timestamp or payload is
    /// dropped without changing the state, and a produced mixed frame is
    /// handed back for forwarding. The identifier never changes once set,
    /// so at most one event of a session is ever announced.
    pub fn handle_event(&mut self, event: Event) -> (action: SessionAction)
        ensures
            old(self).call_id is Some ==> final(self).call_id == old(self).call_id,
            action matches SessionAction::Announce(a) ==> old(self).call_id is None && final(self).call_id is Some,
            match event.event_type {
                EventType::Start(start) => {
                    &&& final(self).buffers.model() == old(self).buffers.model()
                    &&& (old(self).call_id is None ==> (final(self).call_id matches Some(id)
                        && id@ == start.call_sid@) && (action matches SessionAction::Announce(a)
                        && a@ == start.call_sid@))
                    &&& (old(self).call_id is Some ==> action is Ignore)
                },
                EventType::Media(media) => {
                    &&& final(self).call_id == old(self).call_id
                    &&& (old(self).call_id is None ==> final(self).buffers.model() == old(self).buffers.model() && action is Ignore)
                    &&& (old(self).call_id is Some ==> media_outcome(
                        old(self).buffers.model(),
                        media,
                        final(self).buffers.model(),
                        action,
                    ))
                },
            },
    {
        match event.event_type {
            EventType::Start(start) => {
                if self.call_id.is_none() {
                    self.call_id = Some(start.call_sid.clone());
                    SessionAction::Announce(start.call_sid)
                } else {
                    SessionAction::Ignore
                }
            },
            EventType::Media(media) => {
                if self.call_id.is_some() {
                    match process_twilio_media(media, &mut self.buffers) {
                        Some(frame) => SessionAction::Forward(frame),
                        None => SessionAction::Ignore,
                    }
                } else {
                    SessionAction::Ignore
                }
            },
        }
    }
}

} // verus!
