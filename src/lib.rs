//! A relay for text updates: length-prefixed frames, a compact record
//! encoding, a registry of peers and the decision that fans one update out
//! to every peer but its sender.
pub mod client;
pub mod frame;
pub mod message;
pub mod registry;
pub mod relay;

pub use frame::{encode_frame, FrameReader};
pub use message::TextUpdate;
