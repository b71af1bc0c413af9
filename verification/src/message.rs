//! The messages that nodes exchange, and their protocol tags.

pub mod gossip;
pub mod sampling;

use vstd::prelude::*;

verus! {

/// The bits of the first byte of a frame that name the protocol.
pub const MASK_MESSAGE_PROTOCOL: u8 = 0xF0;

/// Protocol tag of a peer sampling message.
pub const MESSAGE_PROTOCOL_SAMPLING_MESSAGE: u8 = 0x10;

/// Protocol tag of a message that advertises digests.
pub const MESSAGE_PROTOCOL_HEADER_MESSAGE: u8 = 0x20;

/// Protocol tag of a message that asks for or carries content.
pub const MESSAGE_PROTOCOL_CONTENT_MESSAGE: u8 = 0x40;

/// Protocol tag of a message that carries nothing.
pub const MESSAGE_PROTOCOL_NOOP_MESSAGE: u8 = 0x80;

/// A request advertises what the sender has or asks for what was advertised;
/// a response advertises back or carries what was asked for.
#[derive(Clone, Copy, Debug, PartialEq, Eq, Structural)]
pub enum MessageType {
    Request,
    Response,
}

/// What every message says of itself.
pub trait Message {
    /// The tag that the message has on the wire.
    spec fn spec_protocol(&self) -> u8;

    /// The tag that comes first in the frame of the message.
    fn protocol(&self) -> (tag: u8)
        ensures
            tag == self.spec_protocol(),
    ;
}

/// A message that carries nothing; a node sends it to itself to wake its
/// listener.
#[derive(Debug)]
pub struct NoopMessage;

impl Message for NoopMessage {
    open spec fn spec_protocol(&self) -> u8 {
        MESSAGE_PROTOCOL_NOOP_MESSAGE
    }

    fn protocol(&self) -> (tag: u8) {
        MESSAGE_PROTOCOL_NOOP_MESSAGE
    }
}

} // verus!
