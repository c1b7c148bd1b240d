use crate::bytes::{be_bytes, be_value, lemma_pow256_values, magic};
use crate::error::CodecError;
use crate::packets::{expect_magic, magic_at, Packet};
use crate::reader::{fits, slice_at, Endian, Reader};
use crate::writer::{lemma_concat4, Writer};
use vstd::prelude::*;

verus! {

/// The server's answer to a peer whose identifier is connected already.
#[derive(Clone, Copy, Debug, PartialEq, Eq, Structural)]
pub struct AlreadyConnected {
    pub guid: u64,
}

impl AlreadyConnected {
    /// The byte that names the packet on the wire.
    pub const ID: u8 = 0x12;

    pub fn new(guid: u64) -> (r: Self)
        ensures
            r.guid == guid,
    {
        Self { guid }
    }
}

impl View for AlreadyConnected {
    type V = AlreadyConnected;

    open spec fn view(&self) -> AlreadyConnected {
        *self
    }
}

impl Packet for AlreadyConnected {
    open spec fn packet_id() -> u8 {
        0x12
    }

    fn id() -> (r: u8) {
        AlreadyConnected::ID
    }


    open spec fn writable(v: AlreadyConnected) -> bool {
        true
    }

    open spec fn canonical(v: AlreadyConnected) -> bool {
        true
    }

    /// The offline marker, then the identifier, big-endian.
    open spec fn body(v: AlreadyConnected) -> Seq<u8> {
        magic() + be_bytes(v.guid as nat, 8)
    }

    open spec fn parse(body: Seq<u8>) -> Result<AlreadyConnected, CodecError> {
        match magic_at(body, 0) {
            Err(e) => Err(e),
            Ok(_) => if !fits(body, 16, 8) {
                Err(CodecError::UnexpectedEof)
            } else {
                Ok(AlreadyConnected { guid: be_value(slice_at(body, 16, 8)) as u64 })
            },
        }
    }

    fn read(payload: &[u8]) -> (r: Result<Self, CodecError>) {
        let mut cursor = Reader::new(payload);
        expect_magic(&mut cursor)?;
        let guid: u64 = cursor.read_u64(Endian::Big)?;
        Ok(Self { guid })
    }

    fn write(&self) -> (r: Result<Vec<u8>, CodecError>) {
        let mut cursor = Writer::new(Vec::new());
        let _ = cursor.write_magic();
        let _ = cursor.write_u64(self.guid, Endian::Big);
        let out: Vec<u8> = cursor.get_raw_payload();
        assert(out@ =~= Self::body(self@));
        Ok(out)
    }

    proof fn lemma_round_trip(v: AlreadyConnected) {
        let guid = be_bytes(v.guid as nat, 8);
        lemma_pow256_values();
        crate::bytes::lemma_be_bytes_len(v.guid as nat, 8);
        crate::bytes::lemma_be_value_of_bytes(v.guid as nat, 8);
        lemma_concat4(magic(), guid, Seq::<u8>::empty(), Seq::<u8>::empty());
        assert(Self::body(v) =~= magic() + guid + Seq::<u8>::empty() + Seq::<u8>::empty());
    }
}

} // verus!
