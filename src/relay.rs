//! The coordinator's decision for each payload that arrives: decode it,
//! encode it again, and name the connections it goes to.
use crate::frame::{frame_of, lemma_parse_frame_of, parse_frame};
use crate::message::{
    decoded, encodable, lemma_round_trip, payload_of, record_frame, TextUpdate,
};
use crate::registry::{recipients_of, ConnectionRegistry, PeerAddr};
use vstd::prelude::*;
use vstd::utf8::*;

verus! {

/// A payload as it came off a connection, with the peer it came from.
pub struct Envelope {
    pub origin: PeerAddr,
    pub payload: Vec<u8>,
}

/// What the coordinator sends, and to which registered connections.
pub struct Dispatch {
    pub frame: Vec<u8>,
    pub recipients: Vec<u64>,
}

/// Whether `payload` carries an update that can be sent on again.
pub open spec fn relayable(payload: Seq<u8>) -> bool {
    decoded(payload) is Some && encodable(decoded(payload)->Some_0)
}

/// Decodes `payload` and encodes the update again into a frame: what goes
/// on is always a well-formed frame of the update that came in. `None`
/// exactly when the payload is no update, or its update outgrows a frame.
pub fn revalidate(payload: &[u8]) -> (r: Option<Vec<u8>>)
    ensures
        r is Some <==> relayable(payload@),
        r is Some ==> r->Some_0@ == record_frame(decoded(payload@)->Some_0),
{
    match TextUpdate::decode(payload) {
        None => None,
        Some(update) => update.encode(),
    }
}

/// The step of the relay loop for one envelope: the frame to send, and the
/// ids of every registered connection but those of the sender's peer.
pub fn dispatch(registry: &ConnectionRegistry, envelope: &Envelope) -> (r: Option<Dispatch>)
    ensures
        r is Some <==> relayable(envelope.payload@),
        r is Some ==> r->Some_0.frame@ == record_frame(decoded(envelope.payload@)->Some_0)
            && r->Some_0.recipients@ == recipients_of(registry@, envelope.origin),
{
    match revalidate(envelope.payload.as_slice()) {
        None => None,
        Some(frame) => Some(Dispatch { frame, recipients: registry.recipients(envelope.origin) }),
    }
}

/// A frame whose payload is no update is dropped alone: the frame that
/// follows it on the same stream is still found whole, and decodes to its
/// update.
pub proof fn lemma_garbage_skipped(garbage: Seq<u8>, text: Seq<char>)
    requires
        garbage.len() <= u32::MAX,
        decoded(garbage) is None,
        encodable(text),
    ensures
        parse_frame(frame_of(garbage) + record_frame(text)) == Some((garbage, record_frame(text))),
        parse_frame(record_frame(text)) == Some(
            (payload_of(encode_utf8(text)), Seq::<u8>::empty()),
        ),
        decoded(payload_of(encode_utf8(text))) == Some(text),
{
    lemma_parse_frame_of(garbage, record_frame(text));
    lemma_parse_frame_of(payload_of(encode_utf8(text)), Seq::<u8>::empty());
    assert(record_frame(text) + Seq::<u8>::empty() =~= record_frame(text));
    lemma_round_trip(text);
}

} // verus!
