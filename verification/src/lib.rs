//! Real-time media relay library: dual-leg audio buffering and mixing,
//! per-call session orchestration, and a subscriber registry with
//! fan-out pruning, all with verified contracts.

pub mod audio;
pub mod message;
pub mod registry;
pub mod session;
pub mod subscriber;
pub mod twilio_response;
