use crate::error::CodecError;
use crate::packets::Packet;
use vstd::prelude::*;

verus! {

/// The notice that the sender has closed the session. It has no fields.
#[derive(Clone, Copy, Debug, PartialEq, Eq, Structural)]
pub struct Disconnected;

impl Disconnected {
    /// The byte that names the packet on the wire.
    pub const ID: u8 = 0x15;
}

impl View for Disconnected {
    type V = Disconnected;

    open spec fn view(&self) -> Disconnected {
        *self
    }
}

impl Packet for Disconnected {
    open spec fn packet_id() -> u8 {
        0x15
    }

    fn id() -> (r: u8) {
        Disconnected::ID
    }


    open spec fn writable(v: Disconnected) -> bool {
        true
    }

    open spec fn canonical(v: Disconnected) -> bool {
        true
    }

    open spec fn body(v: Disconnected) -> Seq<u8> {
        Seq::<u8>::empty()
    }

    open spec fn parse(body: Seq<u8>) -> Result<Disconnected, CodecError> {
        Ok(Disconnected)
    }

    fn read(_payload: &[u8]) -> (r: Result<Self, CodecError>) {
        Ok(Self)
    }

    fn write(&self) -> (r: Result<Vec<u8>, CodecError>) {
        Ok(Vec::new())
    }

    proof fn lemma_round_trip(v: Disconnected) {
    }
}

} // verus!
