//! Handles that applications keep for the messages they send.
use vstd::prelude::*;

verus! {

/// An opaque number identifying a sent message.
#[derive(Clone, Copy, Debug, PartialEq, Eq, Structural, Hash)]
pub struct MessageTicket(pub u16);

impl MessageTicket {
    /// The ticket with raw value `raw`.
    pub fn from_raw(raw: u16) -> (r: MessageTicket)
        ensures
            r.0 == raw,
    {
        MessageTicket(raw)
    }

    /// The raw value of this ticket.
    pub fn into_raw(self) -> (r: u16)
        ensures
            r == self.0,
    {
        self.0
    }
}

/// Where a sent message stands.
#[derive(Clone, Copy, Debug, PartialEq, Eq, Structural, Hash)]
pub enum MessageState {
    /// Queued, not yet put in a packet.
    Unsent,
    /// Put in a packet, not yet acknowledged.
    Sent,
    /// Acknowledged by the peer.
    Ack,
    /// Given up on.
    Nack,
}

} // verus!
