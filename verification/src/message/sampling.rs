//! The message of the peer sampling protocol, and its form as bytes.

use vstd::prelude::*;
use vstd::slice::slice_subrange;
use vstd::utf8::{decode_utf8, encode_utf8, valid_utf8};
use crate::peer::{lemma_peer_round_trip, peer_bytes, peer_from_bytes};
use crate::text::text_from_utf8;
use crate::wire::{append_bytes, copy_range, DecodeError};
pub use crate::message::MessageType;
use crate::message::{Message, MESSAGE_PROTOCOL_SAMPLING_MESSAGE};
use crate::peer::{Peer, PeerView};
use crate::selection::peer_views;

verus! {

/// The view that a message carries as it stands in contracts.
pub open spec fn carried_view(view: Option<Vec<Peer>>) -> Option<Seq<PeerView>> {
    match view {
        Some(peers) => Some(peer_views(peers@)),
        None => None,
    }
}

/// What a [`PeerSamplingMessage`] stands for in contracts.
#[verifier::ext_equal]
pub ghost struct PeerSamplingMessageView {
    pub sender: Seq<char>,
    pub message_type: MessageType,
    pub view: Option<Seq<PeerView>>,
}

/// Carries a part of the sender's view to another node, or asks the other
/// node for a part of its view.
#[derive(Debug)]
pub struct PeerSamplingMessage {
    sender: String,
    message_type: MessageType,
    view: Option<Vec<Peer>>,
}

impl PeerSamplingMessage {
    /// What the message stands for in contracts. (The message has a method
    /// `view` of its own, so this is not written with `@`.)
    pub closed spec fn model(&self) -> PeerSamplingMessageView {
        PeerSamplingMessageView {
            sender: self.sender@,
            message_type: self.message_type,
            view: carried_view(self.view),
        }
    }

    /// A request from `sender` that carries `view`.
    pub fn new_request(sender: String, view: Option<Vec<Peer>>) -> (message: PeerSamplingMessage)
        ensures
            message.model() == (PeerSamplingMessageView {
                sender: sender@,
                message_type: MessageType::Request,
                view: carried_view(view),
            }),
    {
        Self::new(sender, MessageType::Request, view)
    }

    /// A response from `sender` that carries `view`.
    pub fn new_response(sender: String, view: Option<Vec<Peer>>) -> (message: PeerSamplingMessage)
        ensures
            message.model() == (PeerSamplingMessageView {
                sender: sender@,
                message_type: MessageType::Response,
                view: carried_view(view),
            }),
    {
        Self::new(sender, MessageType::Response, view)
    }

    fn new(sender: String, message_type: MessageType, view: Option<Vec<Peer>>) -> (message:
        PeerSamplingMessage)
        ensures
            message.model() == (PeerSamplingMessageView { sender: sender@, message_type, view: carried_view(view) }),
    {
        PeerSamplingMessage { sender, message_type, view }
    }

    /// The address of the sender.
    pub fn sender(&self) -> (sender: &str)
        ensures
            sender@ == self.model().sender,
    {
        self.sender.as_str()
    }

    /// Whether the message is a request or a response.
    pub fn message_type(&self) -> (message_type: &MessageType)
        ensures
            *message_type == self.model().message_type,
    {
        &self.message_type
    }

    /// The view that the message carries.
    pub fn view(&self) -> (view: &Option<Vec<Peer>>)
        ensures
            carried_view(*view) == self.model().view,
    {
        &self.view
    }
}

impl Message for PeerSamplingMessage {
    open spec fn spec_protocol(&self) -> u8 {
        MESSAGE_PROTOCOL_SAMPLING_MESSAGE
    }

    fn protocol(&self) -> (tag: u8) {
        MESSAGE_PROTOCOL_SAMPLING_MESSAGE
    }
}

/// Why a message was not written as bytes.
#[derive(Clone, Copy, Debug, PartialEq, Eq, Structural)]
pub enum EncodeError {
    /// The sender, the view or a peer of it is too long for the one byte that
    /// holds its length.
    TooLong,
    /// The message carries a view without peers, which the bytes could not
    /// tell from no view.
    EmptyView,
    /// The message has neither a sender nor a view: its three bytes would be
    /// fewer than any reader takes.
    TooShort,
}

/// The bit of the first byte that tells a request from a response.
pub const MASK_MSG_TYPE: u8 = 0x80;

/// The first byte of a request.
pub const MSG_TYPE_REQ: u8 = 0x80;

/// The first byte of a response.
pub const MSG_TYPE_RESP: u8 = 0x00;

/// The first byte of a message of the given type.
pub open spec fn type_byte(message_type: MessageType) -> u8 {
    match message_type {
        MessageType::Request => MSG_TYPE_REQ,
        MessageType::Response => MSG_TYPE_RESP,
    }
}

/// The peers of a view as bytes: each as its length in one byte and then its
/// own bytes.
pub open spec fn encoded_peers(peers: Seq<PeerView>) -> Seq<u8>
    decreases peers.len(),
{
    if peers.len() == 0 {
        Seq::empty()
    } else {
        seq![peer_bytes(peers.first()).len() as u8] + peer_bytes(peers.first()) + encoded_peers(
            peers.drop_first(),
        )
    }
}

/// Whether the bytes of every peer fit the one byte that holds their length.
pub open spec fn peers_fit(peers: Seq<PeerView>) -> bool {
    forall|i: int| 0 <= i < peers.len() ==> peer_bytes(#[trigger] peers[i]).len() <= 255
}

/// Why the message cannot be written as bytes, if it cannot. The bytes hold
/// each length in one byte, tell no view by the number 0 of peers, and are
/// four at least.
pub open spec fn refusal(message: PeerSamplingMessageView) -> Option<EncodeError> {
    if encode_utf8(message.sender).len() > 255 {
        Some(EncodeError::TooLong)
    } else {
        match message.view {
            Some(peers) => if peers.len() == 0 {
                Some(EncodeError::EmptyView)
            } else if peers.len() > 255 || !peers_fit(peers) {
                Some(EncodeError::TooLong)
            } else {
                None
            },
            None => if encode_utf8(message.sender).len() == 0 {
                Some(EncodeError::TooShort)
            } else {
                None
            },
        }
    }
}

/// Whether the message can be written as bytes.
pub open spec fn encodable(message: PeerSamplingMessageView) -> bool {
    refusal(message) is None
}

/// A message as bytes: the type, the sender as its length in one byte and
/// then its text in UTF-8, the number of peers in one byte, and the peers. A
/// message without a view is written with the number 0 of peers.
pub open spec fn encoded(message: PeerSamplingMessageView) -> Seq<u8> {
    seq![type_byte(message.message_type), encode_utf8(message.sender).len() as u8] + encode_utf8(
        message.sender,
    ) + match message.view {
        Some(peers) => seq![peers.len() as u8] + encoded_peers(peers),
        None => seq![0u8],
    }
}

/// The `count` peers that stand in `bytes` from position `index` on, or the
/// reason why there are none.
pub open spec fn decoded_peers(bytes: Seq<u8>, index: int, count: nat) -> Result<Seq<PeerView>, DecodeError>
    decreases count,
{
    if count == 0 {
        Ok(Seq::empty())
    } else if index < 0 || index >= bytes.len() {
        Err(DecodeError::Truncated)
    } else if bytes.len() < index + 1 + bytes[index] {
        Err(DecodeError::Truncated)
    } else {
        match peer_from_bytes(bytes.subrange(index + 1, index + 1 + bytes[index])) {
            Err(error) => Err(error),
            Ok(peer) => match decoded_peers(bytes, index + 1 + bytes[index], (count - 1) as nat) {
                Err(error) => Err(error),
                Ok(rest) => Ok(seq![peer] + rest),
            },
        }
    }
}

/// The message that bytes stand for, or the reason why they stand for none.
/// Fewer than four bytes are refused, and so are bytes that end before the
/// number of peers or hold fewer than two bytes for each peer. Of the first
/// byte only the highest bit is looked at. The number 0 of peers stands for
/// no view. Bytes after the last peer are not looked at.
pub open spec fn decoded(bytes: Seq<u8>) -> Result<PeerSamplingMessageView, DecodeError> {
    if bytes.len() < 4 {
        Err(DecodeError::Truncated)
    } else if bytes.len() < 3 + bytes[1] {
        Err(DecodeError::Truncated)
    } else if !valid_utf8(bytes.subrange(2, 2 + bytes[1])) {
        Err(DecodeError::InvalidText)
    } else {
        let message_type = if bytes[0] & MASK_MSG_TYPE == MSG_TYPE_REQ {
            MessageType::Request
        } else {
            MessageType::Response
        };
        let sender = decode_utf8(bytes.subrange(2, 2 + bytes[1]));
        let view_size = bytes[2 + bytes[1]];
        if bytes.len() < 2 + bytes[1] + 2 * view_size {
            Err(DecodeError::Truncated)
        } else if view_size > 0 {
            match decoded_peers(bytes, 3 + bytes[1], view_size as nat) {
                Ok(peers) => Ok(PeerSamplingMessageView { sender, message_type, view: Some(peers) }),
                Err(error) => Err(error),
            }
        } else {
            Ok(PeerSamplingMessageView { sender, message_type, view: None })
        }
    }
}

/// The bytes of peers hold three bytes for each peer at least.
pub proof fn lemma_encoded_peers_len(peers: Seq<PeerView>)
    ensures
        encoded_peers(peers).len() >= 3 * peers.len(),
    decreases peers.len(),
{
    if peers.len() > 0 {
        lemma_encoded_peers_len(peers.drop_first());
    }
}

/// Peers that were written are read back as they were, wherever in the bytes
/// they stand.
pub proof fn lemma_peers_round_trip(before: Seq<u8>, peers: Seq<PeerView>, after: Seq<u8>)
    requires
        forall|i: int| 0 <= i < peers.len() ==> peer_bytes(#[trigger] peers[i]).len() <= 255,
    ensures
        decoded_peers(before + encoded_peers(peers) + after, before.len() as int, peers.len()) == Ok::<
            Seq<PeerView>,
            DecodeError,
        >(peers),
    decreases peers.len(),
{
    let bytes = before + encoded_peers(peers) + after;
    if peers.len() == 0 {
        assert(peers =~= Seq::empty());
    } else {
        let first = peers.first();
        let written = peer_bytes(first);
        let rest = peers.drop_first();
        let index = before.len() as int;
        assert(peer_bytes(peers[0]).len() <= 255);
        assert(bytes[index] == written.len() as u8);
        assert(bytes.subrange(index + 1, index + 1 + written.len()) =~= written);
        lemma_peer_round_trip(first);
        let front = before + seq![written.len() as u8] + written;
        assert forall|i: int| 0 <= i < rest.len() implies peer_bytes(#[trigger] rest[i]).len() <= 255 by {
            assert(rest[i] == peers[i + 1]);
        }
        lemma_peers_round_trip(front, rest, after);
        assert(front + encoded_peers(rest) + after =~= bytes);
        assert(seq![first] + rest =~= peers);
    }
}

/// A message that was written is read back as it was: the same sender, the
/// same type, and the same view, be it none or peers with their addresses
/// and ages in their order. This holds of every message that can be written.
pub proof fn lemma_message_round_trip(message: PeerSamplingMessageView)
    requires
        encodable(message),
    ensures
        encoded(message).len() >= 4,
        decoded(encoded(message)) == Ok::<PeerSamplingMessageView, DecodeError>(message),
{
    let bytes = encoded(message);
    let sender = encode_utf8(message.sender);
    let n = sender.len() as int;
    vstd::utf8::encode_utf8_valid_utf8(message.sender);
    vstd::utf8::encode_utf8_decode_utf8(message.sender);
    assert(0x80u8 & 0x80u8 == 0x80u8) by (bit_vector);
    assert(0x00u8 & 0x80u8 != 0x80u8) by (bit_vector);
    assert(bytes[0] == type_byte(message.message_type));
    assert(bytes[1] == n);
    assert(bytes.subrange(2, 2 + n) =~= sender);
    match message.view {
        Some(peers) => {
            lemma_encoded_peers_len(peers);
            assert(bytes[2 + n] == peers.len());
            let front = seq![type_byte(message.message_type), n as u8] + sender + seq![peers.len() as u8];
            lemma_peers_round_trip(front, peers, Seq::empty());
            assert(front + encoded_peers(peers) + Seq::<u8>::empty() =~= bytes);
        },
        None => {
            assert(bytes[2 + n] == 0);
        },
    }
}

impl PeerSamplingMessage {
    /// Writes the message as bytes, unless the bytes cannot carry it: where
    /// a length does not fit in one byte (`TooLong`), where the view is there
    /// but holds no peer (`EmptyView`), and where there is neither a sender
    /// nor a view (`TooShort`). What is written, `from_bytes` reads back as
    /// it was.
    #[verifier::loop_isolation(false)]
    pub fn as_bytes(&self) -> (result: Result<Vec<u8>, EncodeError>)
        ensures
            match result {
                Ok(bytes) => refusal(self.model()) is None && bytes@ == encoded(self.model()) && decoded(bytes@)
                    == Ok::<PeerSamplingMessageView, DecodeError>(self.model()),
                Err(error) => refusal(self.model()) == Some(error),
            },
    {
        let mut bytes: Vec<u8> = Vec::new();
        match self.message_type {
            MessageType::Request => bytes.push(MSG_TYPE_REQ),
            MessageType::Response => bytes.push(MSG_TYPE_RESP),
        }
        let sender = self.sender.as_str().as_bytes();
        if sender.len() > 255 {
            return Err(EncodeError::TooLong);
        }
        bytes.push(sender.len() as u8);
        append_bytes(&mut bytes, sender);
        match &self.view {
            Some(peers) => {
                let ghost all = peer_views(peers@);
                assert(self.model().view == Some(all));
                if peers.len() == 0 {
                    return Err(EncodeError::EmptyView);
                }
                if peers.len() > 255 {
                    return Err(EncodeError::TooLong);
                }
                bytes.push(peers.len() as u8);
                let ghost head = bytes@;
                let mut i: usize = 0;
                assert(all.skip(0) =~= all);
                while i < peers.len()
                    invariant
                        i <= peers.len(),
                        all == peer_views(peers@),
                        forall|k: int| 0 <= k < i ==> peer_bytes(#[trigger] all[k]).len() <= 255,
                        bytes@ + encoded_peers(all.skip(i as int)) == head + encoded_peers(all),
                    decreases peers.len() - i,
                {
                    let written = peers[i].as_bytes();
                    if written.len() > 255 {
                        assert(peer_bytes(all[i as int]).len() > 255);
                        assert(!peers_fit(all));
                        return Err(EncodeError::TooLong);
                    }
                    proof {
                        assert(all.skip(i as int).first() == all[i as int]);
                        assert(all.skip(i as int).drop_first() =~= all.skip(i + 1));
                    }
                    let ghost so_far = bytes@;
                    bytes.push(written.len() as u8);
                    append_bytes(&mut bytes, written.as_slice());
                    i += 1;
                    assert(bytes@ + encoded_peers(all.skip(i as int)) =~= so_far + encoded_peers(
                        all.skip(i - 1),
                    ));
                }
                proof {
                    assert(peers_fit(all));
                    assert(encoded_peers(all.skip(peers.len() as int)) =~= Seq::<u8>::empty());
                    assert(bytes@ =~= encoded(self.model()));
                    assert(refusal(self.model()) is None);
                    lemma_message_round_trip(self.model());
                }
                Ok(bytes)
            },
            None => {
                if sender.len() == 0 {
                    return Err(EncodeError::TooShort);
                }
                bytes.push(0);
                proof {
                    assert(bytes@ =~= encoded(self.model()));
                    assert(refusal(self.model()) is None);
                    lemma_message_round_trip(self.model());
                }
                Ok(bytes)
            },
        }
    }

    /// Reads a message from bytes.
    #[verifier::loop_isolation(false)]
    pub fn from_bytes(bytes: Vec<u8>) -> (result: Result<PeerSamplingMessage, DecodeError>)
        ensures
            match result {
                Ok(message) => decoded(bytes@) == Ok::<PeerSamplingMessageView, DecodeError>(message.model()),
                Err(error) => decoded(bytes@) == Err::<PeerSamplingMessageView, DecodeError>(error),
            },
    {
        if bytes.len() < 4 {
            return Err(DecodeError::Truncated);
        }
        let message_type = if bytes[0] & MASK_MSG_TYPE == MSG_TYPE_REQ {
            MessageType::Request
        } else {
            MessageType::Response
        };
        let sender_size: usize = bytes[1] as usize;
        if bytes.len() - 3 < sender_size {
            return Err(DecodeError::Truncated);
        }
        let text = copy_range(bytes.as_slice(), 2, 2 + sender_size);
        let sender = match text_from_utf8(text) {
            Some(sender) => sender,
            None => {
                return Err(DecodeError::InvalidText);
            },
        };
        let view_size: usize = bytes[2 + sender_size] as usize;
        if bytes.len() < 2 + sender_size + 2 * view_size {
            return Err(DecodeError::Truncated);
        }
        if view_size == 0 {
            return Ok(PeerSamplingMessage { sender, message_type, view: None });
        }
        let start: usize = 3 + sender_size;
        let mut index: usize = start;
        let mut peers: Vec<Peer> = Vec::new();
        let mut read: usize = 0;
        assert(seq![] + Seq::<PeerView>::empty() =~= Seq::<PeerView>::empty());
        while read < view_size
            invariant
                read <= view_size,
                index <= bytes.len(),
                peers@.len() == read,
                decoded_peers(bytes@, start as int, view_size as nat) == match decoded_peers(
                    bytes@,
                    index as int,
                    (view_size - read) as nat,
                ) {
                    Ok(rest) => Ok::<Seq<PeerView>, DecodeError>(peer_views(peers@) + rest),
                    Err(error) => Err::<Seq<PeerView>, DecodeError>(error),
                },
            decreases view_size - read,
        {
            if index >= bytes.len() {
                return Err(DecodeError::Truncated);
            }
            let peer_length: usize = bytes[index] as usize;
            if bytes.len() - index - 1 < peer_length {
                return Err(DecodeError::Truncated);
            }
            let slice = slice_subrange(bytes.as_slice(), index + 1, index + 1 + peer_length);
            match Peer::from_bytes(slice) {
                Err(error) => {
                    return Err(error);
                },
                Ok(peer) => {
                    let ghost so_far = peer_views(peers@);
                    let ghost one = peer@;
                    peers.push(peer);
                    proof {
                        assert(peer_views(peers@) =~= so_far + seq![one]);
                        match decoded_peers(
                            bytes@,
                            index + 1 + peer_length,
                            (view_size - read - 1) as nat,
                        ) {
                            Ok(rest) => {
                                assert(so_far + (seq![one] + rest) =~= so_far + seq![one] + rest);
                            },
                            Err(_) => {},
                        }
                    }
                    index = index + 1 + peer_length;
                    read += 1;
                },
            }
        }
        proof {
            assert(peer_views(peers@) + Seq::<PeerView>::empty() =~= peer_views(peers@));
        }
        Ok(PeerSamplingMessage { sender, message_type, view: Some(peers) })
    }
}

} // verus!
