//! The packets of the protocol and what they look like on the wire.

pub mod ack;
pub mod already_connected;
pub mod connected_ping;
pub mod connected_pong;
pub mod connection_request;
pub mod connection_request_accepted;
pub mod disconnected;
pub mod frame;
pub mod frame_set;
pub mod incompatible_protocol_version;
pub mod nack;
pub mod new_incoming_connection;
pub mod open_connection_reply1;
pub mod open_connection_reply2;
pub mod open_connection_request1;
pub mod open_connection_request2;
pub mod ranges;
pub mod unconnected_ping;
pub mod unconnected_pong;

use crate::bytes::magic;
use crate::error::CodecError;
use crate::reader::{fits, slice_at, Reader};
use vstd::prelude::*;

verus! {

/// How a message is to be delivered.
#[derive(Clone, Copy, Debug, PartialEq, Eq, Structural)]
pub enum Reliability {
    Unreliable,
    UnreliableSequenced,
    Reliable,
    ReliableOrdered,
    ReliableSequenced,
    UnreliableWithAckReceipt,
    ReliableWithAckReceipt,
    ReliableOrderedWithAckReceipt,
}

impl Reliability {
    /// The number that stands for this mode in a frame's header.
    pub open spec fn spec_to_byte(&self) -> u8 {
        match self {
            Reliability::Unreliable => 0,
            Reliability::UnreliableSequenced => 1,
            Reliability::Reliable => 2,
            Reliability::ReliableOrdered => 3,
            Reliability::ReliableSequenced => 4,
            Reliability::UnreliableWithAckReceipt => 5,
            Reliability::ReliableWithAckReceipt => 6,
            Reliability::ReliableOrderedWithAckReceipt => 7,
        }
    }

    /// The mode that `byte` stands for; bytes above 7 stand for none.
    pub open spec fn of_byte(byte: u8) -> Result<Reliability, CodecError> {
        match byte {
            0 => Ok(Reliability::Unreliable),
            1 => Ok(Reliability::UnreliableSequenced),
            2 => Ok(Reliability::Reliable),
            3 => Ok(Reliability::ReliableOrdered),
            4 => Ok(Reliability::ReliableSequenced),
            5 => Ok(Reliability::UnreliableWithAckReceipt),
            6 => Ok(Reliability::ReliableWithAckReceipt),
            7 => Ok(Reliability::ReliableOrderedWithAckReceipt),
            _ => Err(CodecError::UnknownReliability(byte)),
        }
    }

    /// The message is resent until acknowledged, and carries a message index.
    pub open spec fn spec_reliable(&self) -> bool {
        matches!(
            self,
            Reliability::Reliable | Reliability::ReliableOrdered | Reliability::ReliableSequenced
                | Reliability::ReliableWithAckReceipt | Reliability::ReliableOrderedWithAckReceipt
        )
    }

    /// The message belongs to an ordering channel, and carries an order index.
    pub open spec fn spec_sequenced_or_ordered(&self) -> bool {
        matches!(
            self,
            Reliability::UnreliableSequenced | Reliability::ReliableOrdered
                | Reliability::ReliableSequenced | Reliability::ReliableOrderedWithAckReceipt
        )
    }

    /// Stale messages are dropped, and the message carries a sequence index.
    pub open spec fn spec_sequenced(&self) -> bool {
        matches!(self, Reliability::UnreliableSequenced | Reliability::ReliableSequenced)
    }

    pub fn new(byte: u8) -> (r: Result<Self, CodecError>)
        ensures
            r == Self::of_byte(byte),
    {
        match byte {
            0 => Ok(Reliability::Unreliable),
            1 => Ok(Reliability::UnreliableSequenced),
            2 => Ok(Reliability::Reliable),
            3 => Ok(Reliability::ReliableOrdered),
            4 => Ok(Reliability::ReliableSequenced),
            5 => Ok(Reliability::UnreliableWithAckReceipt),
            6 => Ok(Reliability::ReliableWithAckReceipt),
            7 => Ok(Reliability::ReliableOrderedWithAckReceipt),
            _ => Err(CodecError::UnknownReliability(byte)),
        }
    }

    #[verifier::when_used_as_spec(spec_to_byte)]
    pub fn to_byte(&self) -> (r: u8)
        ensures
            r == self.spec_to_byte(),
            r <= 7,
    {
        match self {
            Reliability::Unreliable => 0,
            Reliability::UnreliableSequenced => 1,
            Reliability::Reliable => 2,
            Reliability::ReliableOrdered => 3,
            Reliability::ReliableSequenced => 4,
            Reliability::UnreliableWithAckReceipt => 5,
            Reliability::ReliableWithAckReceipt => 6,
            Reliability::ReliableOrderedWithAckReceipt => 7,
        }
    }

    #[verifier::when_used_as_spec(spec_reliable)]
    pub fn reliable(&self) -> (r: bool)
        ensures
            r == self.spec_reliable(),
    {
        matches!(
            self,
            Reliability::Reliable | Reliability::ReliableOrdered | Reliability::ReliableSequenced
                | Reliability::ReliableWithAckReceipt | Reliability::ReliableOrderedWithAckReceipt
        )
    }

    #[verifier::when_used_as_spec(spec_sequenced_or_ordered)]
    pub fn sequenced_or_ordered(&self) -> (r: bool)
        ensures
            r == self.spec_sequenced_or_ordered(),
    {
        matches!(
            self,
            Reliability::UnreliableSequenced | Reliability::ReliableOrdered
                | Reliability::ReliableSequenced | Reliability::ReliableOrderedWithAckReceipt
        )
    }

    #[verifier::when_used_as_spec(spec_sequenced)]
    pub fn sequenced(&self) -> (r: bool)
        ensures
            r == self.spec_sequenced(),
    {
        matches!(self, Reliability::UnreliableSequenced | Reliability::ReliableSequenced)
    }
}

/// The byte of a mode stands for that mode, and a byte up to 7 is the byte of
/// the mode it stands for.
pub proof fn lemma_reliability_byte(mode: Reliability, byte: u8)
    ensures
        Reliability::of_byte(mode.spec_to_byte()) == Ok::<Reliability, CodecError>(mode),
        byte <= 7 ==> Reliability::of_byte(byte) is Ok && Reliability::of_byte(
            byte,
        ).unwrap().spec_to_byte() == byte,
        byte > 7 ==> Reliability::of_byte(byte) == Err::<Reliability, CodecError>(
            CodecError::UnknownReliability(byte),
        ),
{
}

/// Whether the offline marker stands at `pos`, and why not.
pub open spec fn magic_at(body: Seq<u8>, pos: nat) -> Result<(), CodecError> {
    if !fits(body, pos, 16) {
        Err(CodecError::UnexpectedEof)
    } else if slice_at(body, pos, 16) != magic() {
        Err(CodecError::BadMagic)
    } else {
        Ok(())
    }
}

/// Passes over the offline marker, or says why it is not there.
pub(crate) fn expect_magic(cursor: &mut Reader<'_>) -> (r: Result<(), CodecError>)
    ensures
        r == magic_at(old(cursor).bytes(), old(cursor).position()),
        final(cursor).bytes() == old(cursor).bytes(),
        r is Ok ==> final(cursor).position() == old(cursor).position() + 16,
{
    match cursor.read_magic() {
        Ok(true) => Ok(()),
        Ok(false) => Err(CodecError::BadMagic),
        Err(e) => Err(e),
    }
}

/// `n` bytes of `value`.
pub open spec fn filler(n: nat, value: u8) -> Seq<u8> {
    Seq::new(n, |i: int| value)
}

/// A packet that opens with a byte naming its type.
pub trait Packet: View + Sized {
    /// The byte that names the type.
    spec fn packet_id() -> u8;

    /// The byte that names the type.
    fn id() -> (r: u8)
        ensures
            r == Self::packet_id(),
    ;

    /// Whether the packet has a wire form.
    spec fn writable(v: Self::V) -> bool;

    /// Whether the wire form says everything the packet holds.
    spec fn canonical(v: Self::V) -> bool;

    /// The packet on the wire, behind the byte that names its type.
    spec fn body(v: Self::V) -> Seq<u8>;

    /// The packet that a body spells, or why it spells none.
    spec fn parse(body: Seq<u8>) -> Result<Self::V, CodecError>;

    /// Reads a packet from its body.
    fn read(buf: &[u8]) -> (r: Result<Self, CodecError>)
        ensures
            match r {
                Ok(p) => Self::parse(buf@) == Ok::<Self::V, CodecError>(p@),
                Err(e) => Self::parse(buf@) == Err::<Self::V, CodecError>(e),
            },
    ;

    /// Writes the body of the packet.
    fn write(&self) -> (r: Result<Vec<u8>, CodecError>)
        ensures
            match r {
                Ok(b) => Self::writable(self@) && b@ == Self::body(self@),
                Err(e) => !Self::writable(self@) && e == CodecError::OutOfRange,
            },
    ;

    /// What was written reads back as the same packet.
    proof fn lemma_round_trip(v: Self::V)
        requires
            Self::writable(v),
            Self::canonical(v),
        ensures
            Self::parse(Self::body(v)) == Ok::<Self::V, CodecError>(v),
    ;
}

/// The packet with the byte that names its type in front.
pub fn encode<T: Packet>(packet: T) -> (r: Result<Vec<u8>, CodecError>)
    ensures
        match r {
            Ok(b) => T::writable(packet@) && b@ == seq![T::packet_id()] + T::body(packet@),
            Err(e) => !T::writable(packet@) && e == CodecError::OutOfRange,
        },
{
    match packet.write() {
        Ok(body) => {
            let mut out: Vec<u8> = vec![T::id()];
            crate::bytes::append_bytes(&mut out, body.as_slice());
            Ok(out)
        },
        Err(e) => Err(e),
    }
}

/// The packet behind the first byte of `buf`. The first byte is not looked at:
/// the caller has chosen the type by it.
pub fn decode<T: Packet>(buf: &[u8]) -> (r: Result<T, CodecError>)
    ensures
        buf@.len() == 0 ==> r is Err && r->Err_0 == CodecError::UnexpectedEof,
        buf@.len() > 0 ==> match r {
            Ok(p) => T::parse(buf@.skip(1)) == Ok::<T::V, CodecError>(p@),
            Err(e) => T::parse(buf@.skip(1)) == Err::<T::V, CodecError>(e),
        },
{
    if buf.len() == 0 {
        return Err(CodecError::UnexpectedEof);
    }
    let body: &[u8] = &buf[1..buf.len()];
    assert(body@ =~= buf@.skip(1));
    T::read(body)
}

/// Decoding what `encode` gave returns the packet.
pub proof fn lemma_decode_encode<T: Packet>(v: T::V)
    requires
        T::writable(v),
        T::canonical(v),
    ensures
        T::parse((seq![T::packet_id()] + T::body(v)).skip(1)) == Ok::<T::V, CodecError>(v),
{
    assert((seq![T::packet_id()] + T::body(v)).skip(1) =~= T::body(v));
    T::lemma_round_trip(v);
}

} // verus!
