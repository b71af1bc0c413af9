//! Frames: a protocol tag in front of an encoded message.

use vstd::prelude::*;
use crate::message::{
    Message,
    MASK_MESSAGE_PROTOCOL,
    MESSAGE_PROTOCOL_CONTENT_MESSAGE,
    MESSAGE_PROTOCOL_HEADER_MESSAGE,
    MESSAGE_PROTOCOL_NOOP_MESSAGE,
    MESSAGE_PROTOCOL_SAMPLING_MESSAGE,
};

verus! {

/// The protocols that a frame may belong to.
#[derive(Clone, Copy, Debug, PartialEq, Eq, Structural)]
pub enum Protocol {
    /// Peer sampling.
    Sampling,
    /// Advertisement of digests.
    Header,
    /// Request for or transfer of content.
    Content,
    /// Nothing; the frame is to be discarded.
    Noop,
}

/// Why a frame was not taken.
#[derive(Clone, Copy, Debug, PartialEq, Eq, Structural)]
pub enum FrameError {
    /// The frame holds no byte at all.
    Empty,
    /// The protocol bits of the first byte, given here, name no protocol.
    UnknownProtocol(u8),
}

/// The frame of a message: the protocol tag, then the encoded body.
pub open spec fn framed(tag: u8, body: Seq<u8>) -> Seq<u8> {
    seq![tag] + body
}

/// The protocol that the first byte of a frame names by its upper four bits;
/// the lower four are not looked at.
pub open spec fn protocol_of(first: u8) -> Option<Protocol> {
    let bits = first & MASK_MESSAGE_PROTOCOL;
    if bits == MESSAGE_PROTOCOL_NOOP_MESSAGE {
        Some(Protocol::Noop)
    } else if bits == MESSAGE_PROTOCOL_SAMPLING_MESSAGE {
        Some(Protocol::Sampling)
    } else if bits == MESSAGE_PROTOCOL_CONTENT_MESSAGE {
        Some(Protocol::Content)
    } else if bits == MESSAGE_PROTOCOL_HEADER_MESSAGE {
        Some(Protocol::Header)
    } else {
        None
    }
}

/// What a frame is taken for: its protocol and its body, or the reason why
/// it is refused.
pub open spec fn dispatched(buffer: Seq<u8>) -> Result<(Protocol, Seq<u8>), FrameError> {
    if buffer.len() == 0 {
        Err(FrameError::Empty)
    } else {
        match protocol_of(buffer[0]) {
            Some(protocol) => Ok((protocol, buffer.skip(1))),
            None => Err(FrameError::UnknownProtocol(buffer[0] & MASK_MESSAGE_PROTOCOL)),
        }
    }
}

/// Puts the protocol tag of `message` in front of its encoded body: the
/// bytes that go on the wire.
pub fn frame<M: Message>(message: &M, body: Vec<u8>) -> (bytes: Vec<u8>)
    ensures
        bytes@ == framed(message.spec_protocol(), body@),
{
    let mut bytes = body;
    bytes.insert(0, message.protocol());
    assert(bytes@ =~= framed(message.spec_protocol(), body@));
    bytes
}

/// Takes a frame apart: the protocol that its first byte names, and the body
/// that follows. An empty frame and a frame of no known protocol are refused.
pub fn handle_message(buffer: Vec<u8>) -> (result: Result<(Protocol, Vec<u8>), FrameError>)
    ensures
        match result {
            Ok((protocol, body)) => dispatched(buffer@) == Ok::<(Protocol, Seq<u8>), FrameError>(
                (protocol, body@),
            ),
            Err(error) => dispatched(buffer@) == Err::<(Protocol, Seq<u8>), FrameError>(error),
        },
{
    if buffer.len() == 0 {
        return Err(FrameError::Empty);
    }
    let bits = buffer[0] & MASK_MESSAGE_PROTOCOL;
    let protocol = if bits == MESSAGE_PROTOCOL_NOOP_MESSAGE {
        Protocol::Noop
    } else if bits == MESSAGE_PROTOCOL_SAMPLING_MESSAGE {
        Protocol::Sampling
    } else if bits == MESSAGE_PROTOCOL_CONTENT_MESSAGE {
        Protocol::Content
    } else if bits == MESSAGE_PROTOCOL_HEADER_MESSAGE {
        Protocol::Header
    } else {
        return Err(FrameError::UnknownProtocol(bits));
    };
    let mut buffer = buffer;
    let body = buffer.split_off(1);
    Ok((protocol, body))
}

/// The protocol that a tag stands for, where it is one of the four tags.
pub open spec fn protocol_of_tag(tag: u8) -> Protocol {
    if tag == MESSAGE_PROTOCOL_SAMPLING_MESSAGE {
        Protocol::Sampling
    } else if tag == MESSAGE_PROTOCOL_HEADER_MESSAGE {
        Protocol::Header
    } else if tag == MESSAGE_PROTOCOL_CONTENT_MESSAGE {
        Protocol::Content
    } else {
        Protocol::Noop
    }
}

/// A frame that was put together with one of the four tags is taken apart
/// into the protocol of that tag and the same body.
pub proof fn lemma_frame_round_trip(tag: u8, body: Seq<u8>)
    requires
        tag == MESSAGE_PROTOCOL_SAMPLING_MESSAGE || tag == MESSAGE_PROTOCOL_HEADER_MESSAGE || tag
            == MESSAGE_PROTOCOL_CONTENT_MESSAGE || tag == MESSAGE_PROTOCOL_NOOP_MESSAGE,
    ensures
        dispatched(framed(tag, body)) == Ok::<(Protocol, Seq<u8>), FrameError>((protocol_of_tag(tag), body)),
{
    assert(0x10u8 & 0xF0u8 == 0x10u8) by (bit_vector);
    assert(0x20u8 & 0xF0u8 == 0x20u8) by (bit_vector);
    assert(0x40u8 & 0xF0u8 == 0x40u8) by (bit_vector);
    assert(0x80u8 & 0xF0u8 == 0x80u8) by (bit_vector);
    assert(framed(tag, body)[0] == tag);
    assert(framed(tag, body).skip(1) =~= body);
}

} // verus!
