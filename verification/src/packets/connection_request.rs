use crate::bytes::{be_bytes, be_value, lemma_pow256_values};
use crate::error::CodecError;
use crate::packets::Packet;
use crate::reader::{fits, i64_of_bits, slice_at, uint_at, Endian, Reader};
use crate::writer::{
    i64_bits, lemma_concat4, lemma_i64_field, lemma_uint_bytes_len, uint_bytes, Writer,
};
use vstd::prelude::*;

verus! {

/// The client's request to open a session, sent inside the first frame.
#[derive(Clone, Copy, Debug, PartialEq, Eq, Structural)]
pub struct ConnectionRequest {
    pub guid: u64,
    pub time: i64,
    pub use_encryption: u8,
}

impl ConnectionRequest {
    /// The byte that names the packet on the wire.
    pub const ID: u8 = 0x09;

    pub fn new(guid: u64, time: i64, use_encryption: bool) -> (r: Self)
        ensures
            r.guid == guid,
            r.time == time,
            r.use_encryption == if use_encryption {
                1u8
            } else {
                0u8
            },
    {
        Self { guid, time, use_encryption: if use_encryption { 1 } else { 0 } }
    }
}

impl View for ConnectionRequest {
    type V = ConnectionRequest;

    open spec fn view(&self) -> ConnectionRequest {
        *self
    }
}

impl Packet for ConnectionRequest {
    open spec fn packet_id() -> u8 {
        0x09
    }

    fn id() -> (r: u8) {
        ConnectionRequest::ID
    }


    open spec fn writable(v: ConnectionRequest) -> bool {
        true
    }

    open spec fn canonical(v: ConnectionRequest) -> bool {
        true
    }

    /// The identifier and the clock, big-endian, then the encryption byte.
    open spec fn body(v: ConnectionRequest) -> Seq<u8> {
        be_bytes(v.guid as nat, 8) + uint_bytes(i64_bits(v.time), 8, Endian::Big) + seq![
            v.use_encryption,
        ]
    }

    open spec fn parse(body: Seq<u8>) -> Result<ConnectionRequest, CodecError> {
        if !fits(body, 0, 17) {
            Err(CodecError::UnexpectedEof)
        } else {
            Ok(
                ConnectionRequest {
                    guid: be_value(slice_at(body, 0, 8)) as u64,
                    time: i64_of_bits(uint_at(body, 8, 8, Endian::Big)),
                    use_encryption: body[16],
                },
            )
        }
    }

    fn read(payload: &[u8]) -> (r: Result<Self, CodecError>) {
        let mut cursor = Reader::new(payload);
        let guid: u64 = cursor.read_u64(Endian::Big)?;
        let time: i64 = cursor.read_i64(Endian::Big)?;
        let use_encryption: u8 = cursor.read_u8()?;
        Ok(Self { guid, time, use_encryption })
    }

    fn write(&self) -> (r: Result<Vec<u8>, CodecError>) {
        let mut cursor = Writer::new(Vec::new());
        let _ = cursor.write_u64(self.guid, Endian::Big);
        let _ = cursor.write_i64(self.time, Endian::Big);
        let _ = cursor.write_u8(self.use_encryption);
        let out: Vec<u8> = cursor.get_raw_payload();
        assert(out@ =~= Self::body(self@));
        Ok(out)
    }

    proof fn lemma_round_trip(v: ConnectionRequest) {
        let guid = be_bytes(v.guid as nat, 8);
        let time = uint_bytes(i64_bits(v.time), 8, Endian::Big);
        lemma_pow256_values();
        crate::bytes::lemma_be_bytes_len(v.guid as nat, 8);
        crate::bytes::lemma_be_value_of_bytes(v.guid as nat, 8);
        lemma_uint_bytes_len(i64_bits(v.time), 8, Endian::Big);
        lemma_concat4(guid, time, seq![v.use_encryption], Seq::<u8>::empty());
        assert(Self::body(v) =~= guid + time + seq![v.use_encryption] + Seq::<u8>::empty());
        lemma_i64_field(Self::body(v), 8, v.time, Endian::Big);
        assert(slice_at(Self::body(v), 16, 1)[0] == Self::body(v)[16]);
    }
}

} // verus!
