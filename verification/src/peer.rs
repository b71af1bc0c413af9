//! The record that a view holds of another node.

use vstd::prelude::*;
use vstd::utf8::{decode_utf8, encode_utf8, valid_utf8};
use crate::text::text_from_utf8;
use crate::wire::{append_bytes, copy_range, DecodeError};

verus! {

/// What a [`Peer`] stands for in contracts: an address and an age.
#[verifier::ext_equal]
pub ghost struct PeerView {
    pub address: Seq<char>,
    pub age: u16,
}

/// Identity record of a participant, as held in a view.
///
/// Two peers are the same participant when their addresses are equal; the age
/// counts the exchanges since the record was created and is metadata only.
#[derive(Debug)]
pub struct Peer {
    address: String,
    age: u16,
}

impl View for Peer {
    type V = PeerView;

    closed spec fn view(&self) -> PeerView {
        PeerView { address: self.address@, age: self.age }
    }
}

/// The age that follows `age`: one more, except that the maximum stays.
pub open spec fn next_age(age: u16) -> u16 {
    if age < u16::MAX {
        (age + 1) as u16
    } else {
        age
    }
}

/// A peer as bytes: the age, high byte first, then the address in UTF-8.
pub open spec fn peer_bytes(peer: PeerView) -> Seq<u8> {
    seq![(peer.age / 256) as u8, (peer.age % 256) as u8] + encode_utf8(peer.address)
}

/// The peer that bytes stand for, or the reason why they stand for none.
pub open spec fn peer_from_bytes(bytes: Seq<u8>) -> Result<PeerView, DecodeError> {
    if bytes.len() < 2 {
        Err(DecodeError::Truncated)
    } else if !valid_utf8(bytes.skip(2)) {
        Err(DecodeError::InvalidText)
    } else {
        Ok(PeerView { address: decode_utf8(bytes.skip(2)), age: (bytes[0] * 256 + bytes[1]) as u16 })
    }
}

/// Reading the bytes of a peer gives the peer back, with its address and its
/// age.
pub proof fn lemma_peer_round_trip(peer: PeerView)
    ensures
        peer_from_bytes(peer_bytes(peer)) == Ok::<PeerView, DecodeError>(peer),
{
    let bytes = peer_bytes(peer);
    assert(bytes.skip(2) =~= encode_utf8(peer.address));
    vstd::utf8::encode_utf8_valid_utf8(peer.address);
    vstd::utf8::encode_utf8_decode_utf8(peer.address);
    assert(bytes[0] == (peer.age / 256) as u8);
    assert(bytes[1] == (peer.age % 256) as u8);
}

impl Peer {
    /// Creates a peer with the given address and age 0.
    pub fn new(address: String) -> (peer: Peer)
        ensures
            peer@ == (PeerView { address: address@, age: 0 }),
    {
        Peer { address, age: 0 }
    }

    /// Adds one to the age; an age at the maximum stays there.
    pub fn increment_age(&mut self)
        ensures
            final(self)@ == (PeerView { address: old(self)@.address, age: next_age(old(self)@.age) }),
    {
        if self.age < u16::MAX {
            self.age += 1;
        }
    }

    /// The age of the record.
    pub fn age(&self) -> (age: u16)
        ensures
            age == self@.age,
    {
        self.age
    }

    /// The address of the participant.
    pub fn address(&self) -> (address: &str)
        ensures
            address@ == self@.address,
    {
        self.address.as_str()
    }

    /// Whether the participant is at `address`.
    pub fn has_address(&self, address: &String) -> (same: bool)
        ensures
            same == (self@.address == address@),
    {
        self.address == *address
    }

    /// Whether this record and `other` name the same participant.
    pub fn same_address(&self, other: &Peer) -> (same: bool)
        ensures
            same == (self@.address == other@.address),
    {
        self.address == other.address
    }

    /// Writes the peer as bytes.
    pub fn as_bytes(&self) -> (bytes: Vec<u8>)
        ensures
            bytes@ == peer_bytes(self@),
    {
        let mut bytes: Vec<u8> = Vec::new();
        bytes.push((self.age / 256) as u8);
        bytes.push((self.age % 256) as u8);
        append_bytes(&mut bytes, self.address.as_str().as_bytes());
        assert(bytes@ =~= peer_bytes(self@));
        bytes
    }

    /// Reads a peer from bytes. Fewer than two bytes are `Truncated`; an
    /// address that is not well-formed UTF-8 is `InvalidText`.
    pub fn from_bytes(bytes: &[u8]) -> (result: Result<Peer, DecodeError>)
        ensures
            match result {
                Ok(peer) => peer_from_bytes(bytes@) == Ok::<PeerView, DecodeError>(peer@),
                Err(error) => peer_from_bytes(bytes@) == Err::<PeerView, DecodeError>(error),
            },
    {
        if bytes.len() < 2 {
            return Err(DecodeError::Truncated);
        }
        let high: u16 = bytes[0] as u16;
        let low: u16 = bytes[1] as u16;
        let age: u16 = high * 256 + low;
        let text = copy_range(bytes, 2, bytes.len());
        assert(text@ =~= bytes@.skip(2));
        match text_from_utf8(text) {
            Some(address) => Ok(Peer { address, age }),
            None => Err(DecodeError::InvalidText),
        }
    }
}

impl Clone for Peer {
    fn clone(&self) -> (peer: Peer)
        ensures
            peer@ == self@,
    {
        Peer { address: self.address.clone(), age: self.age }
    }
}

impl PartialEq for Peer {
    fn eq(&self, other: &Peer) -> (equal: bool) {
        self.address == other.address
    }
}

impl Eq for Peer {}

impl vstd::std_specs::cmp::PartialEqSpecImpl for Peer {
    open spec fn obeys_eq_spec() -> bool {
        true
    }

    open spec fn eq_spec(&self, other: &Peer) -> bool {
        self@.address == other@.address
    }
}

/// `String`'s `Hash::hash` feeds the text to the hasher; nothing is claimed of
/// the hasher's state afterwards.
pub assume_specification<H: core::hash::Hasher>[ <String as core::hash::Hash>::hash ](
    text: &String,
    state: &mut H,
);

impl core::hash::Hash for Peer {
    fn hash<H: core::hash::Hasher>(&self, state: &mut H) {
        self.address.hash(state)
    }
}

} // verus!
