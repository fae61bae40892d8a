//! The pure pieces of the fan-out path: newline framing of outgoing
//! messages and the per-subscriber delivery policy.

use vstd::prelude::*;

verus! {

/// What one receive from the broadcast channel yielded.
pub enum FeedEvent {
    /// The next message.
    Message(Vec<u8>),
    /// The subscriber fell behind by this many messages; they are gone
    /// from the channel, but the subscription stands.
    Lagged(u64),
    /// The producer is gone; nothing more will arrive.
    Closed,
}

/// What a subscriber does in response.
pub enum FeedAction {
    /// Write these bytes to the client.
    Forward(Vec<u8>),
    /// Keep the connection and wait for the next message.
    Skip,
    /// Close the connection.
    Stop,
}

/// The delivery policy: a message is forwarded as it is, a lag is
/// survived (the gap is permanent but the subscriber stays), and a
/// closed channel ends the subscription.
pub open spec fn spec_subscriber_step(ev: FeedEvent) -> FeedAction {
    match ev {
        FeedEvent::Message(m) => FeedAction::Forward(m),
        FeedEvent::Lagged(_) => FeedAction::Skip,
        FeedEvent::Closed => FeedAction::Stop,
    }
}

/// Decide what a subscriber does with one receive outcome.
pub fn subscriber_step(ev: FeedEvent) -> (r: FeedAction)
    ensures
        r == spec_subscriber_step(ev),
{
    match ev {
        FeedEvent::Message(m) => FeedAction::Forward(m),
        FeedEvent::Lagged(_) => FeedAction::Skip,
        FeedEvent::Closed => FeedAction::Stop,
    }
}

/// Frame one serialized record for the push transport: the bytes, then
/// one newline.
pub fn frame_message(msg: Vec<u8>) -> (r: Vec<u8>)
    ensures
        r@ == msg@.push(10u8),
{
    let mut m = msg;
    m.push(10u8);
    m
}

} // verus!
