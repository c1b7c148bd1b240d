use crate::bytes::{be_bytes, be_value, lemma_pow256_values, magic};
use crate::error::CodecError;
use crate::packets::{expect_magic, magic_at, Packet};
use crate::reader::{fits, i64_of_bits, slice_at, uint_at, Endian, Reader};
use crate::writer::{
    i64_bits, lemma_concat4, lemma_i64_field, lemma_uint_bytes_len, uint_bytes, Writer,
};
use vstd::prelude::*;

verus! {

/// A probe from a peer that has no session: its clock and its identifier.
#[derive(Clone, Copy, Debug, PartialEq, Eq, Structural)]
pub struct UnconnectedPing {
    pub time: i64,
    pub guid: u64,
}

impl UnconnectedPing {
    /// The byte that names the packet on the wire.
    pub const ID: u8 = 0x01;

    pub fn new(time: i64, guid: u64) -> (r: Self)
        ensures
            r.time == time,
            r.guid == guid,
    {
        Self { time, guid }
    }
}

impl View for UnconnectedPing {
    type V = UnconnectedPing;

    open spec fn view(&self) -> UnconnectedPing {
        *self
    }
}

impl Packet for UnconnectedPing {
    open spec fn packet_id() -> u8 {
        0x01
    }

    fn id() -> (r: u8) {
        UnconnectedPing::ID
    }


    open spec fn writable(v: UnconnectedPing) -> bool {
        true
    }

    open spec fn canonical(v: UnconnectedPing) -> bool {
        true
    }

    /// The clock, the offline marker, the identifier, numbers big-endian.
    open spec fn body(v: UnconnectedPing) -> Seq<u8> {
        uint_bytes(i64_bits(v.time), 8, Endian::Big) + magic() + be_bytes(v.guid as nat, 8)
    }

    open spec fn parse(body: Seq<u8>) -> Result<UnconnectedPing, CodecError> {
        if !fits(body, 0, 8) {
            Err(CodecError::UnexpectedEof)
        } else {
            match magic_at(body, 8) {
                Err(e) => Err(e),
                Ok(_) => if !fits(body, 24, 8) {
                    Err(CodecError::UnexpectedEof)
                } else {
                    Ok(
                        UnconnectedPing {
                            time: i64_of_bits(uint_at(body, 0, 8, Endian::Big)),
                            guid: be_value(slice_at(body, 24, 8)) as u64,
                        },
                    )
                },
            }
        }
    }

    fn read(payload: &[u8]) -> (r: Result<Self, CodecError>) {
        let mut cursor = Reader::new(payload);
        let time: i64 = cursor.read_i64(Endian::Big)?;
        expect_magic(&mut cursor)?;
        let guid: u64 = cursor.read_u64(Endian::Big)?;
        Ok(Self { time, guid })
    }

    fn write(&self) -> (r: Result<Vec<u8>, CodecError>) {
        let mut cursor = Writer::new(Vec::new());
        let _ = cursor.write_i64(self.time, Endian::Big);
        let _ = cursor.write_magic();
        let _ = cursor.write_u64(self.guid, Endian::Big);
        let out: Vec<u8> = cursor.get_raw_payload();
        assert(out@ =~= Self::body(self@));
        Ok(out)
    }

    proof fn lemma_round_trip(v: UnconnectedPing) {
        let time = uint_bytes(i64_bits(v.time), 8, Endian::Big);
        let guid = be_bytes(v.guid as nat, 8);
        lemma_pow256_values();
        lemma_uint_bytes_len(i64_bits(v.time), 8, Endian::Big);
        crate::bytes::lemma_be_bytes_len(v.guid as nat, 8);
        crate::bytes::lemma_be_value_of_bytes(v.guid as nat, 8);
        lemma_concat4(time, magic(), guid, Seq::<u8>::empty());
        assert(Self::body(v) =~= time + magic() + guid + Seq::<u8>::empty());
        lemma_i64_field(Self::body(v), 0, v.time, Endian::Big);
    }
}

} // verus!
