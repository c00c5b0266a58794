//! The client's two directions, local edits to the relay and the relay's
//! updates to the local output, as one decision per event.
use crate::message::{decoded, record_frame};
use crate::relay::{relayable, revalidate};
use vstd::prelude::*;

verus! {

/// What happened on one of the client's two streams.
pub enum ClientEvent {
    /// A frame's payload arrived from the relay.
    Remote(Vec<u8>),
    /// A frame's payload arrived from the local input.
    Local(Vec<u8>),
    /// The relay connection ended.
    RemoteClosed,
    /// The local input ended.
    LocalClosed,
}

/// What the client does about an event.
pub enum ClientAction {
    /// Write this frame to the local output, and flush it.
    ToLocal(Vec<u8>),
    /// Write this frame to the relay, and flush it.
    ToRemote(Vec<u8>),
    /// Drop the payload: it is no update, or its update outgrows a frame.
    Skip,
    /// Stop reading the local input; updates from the relay still go on.
    EndLocal,
    /// Stop the client.
    Stop,
}

/// Decides what the client does about `event`. Each payload is decoded and
/// encoded again before it is passed on, in either direction.
pub fn client_step(event: ClientEvent) -> (r: ClientAction)
    ensures
        match event {
            ClientEvent::Remote(p) => if relayable(p@) {
                r is ToLocal && r->ToLocal_0@ == record_frame(decoded(p@)->Some_0)
            } else {
                r is Skip
            },
            ClientEvent::Local(p) => if relayable(p@) {
                r is ToRemote && r->ToRemote_0@ == record_frame(decoded(p@)->Some_0)
            } else {
                r is Skip
            },
            ClientEvent::RemoteClosed => r is Stop,
            ClientEvent::LocalClosed => r is EndLocal,
        },
{
    match event {
        ClientEvent::Remote(p) => match revalidate(p.as_slice()) {
            Some(f) => ClientAction::ToLocal(f),
            None => ClientAction::Skip,
        },
        ClientEvent::Local(p) => match revalidate(p.as_slice()) {
            Some(f) => ClientAction::ToRemote(f),
            None => ClientAction::Skip,
        },
        ClientEvent::RemoteClosed => ClientAction::Stop,
        ClientEvent::LocalClosed => ClientAction::EndLocal,
    }
}

} // verus!
