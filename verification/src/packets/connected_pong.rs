use crate::error::CodecError;
use crate::packets::Packet;
use crate::reader::{fits, i64_of_bits, uint_at, Endian, Reader};
use crate::writer::{
    i64_bits, lemma_concat4, lemma_i64_field, lemma_uint_bytes_len, uint_bytes, Writer,
};
use vstd::prelude::*;

verus! {

/// The answer to a keepalive probe: the probe's clock and the answerer's.
#[derive(Clone, Copy, Debug, PartialEq, Eq, Structural)]
pub struct ConnectedPong {
    pub client_timestamp: i64,
    pub server_timestamp: i64,
}

impl ConnectedPong {
    /// The byte that names the packet on the wire.
    pub const ID: u8 = 0x03;

    pub fn new(client_timestamp: i64, server_timestamp: i64) -> (r: Self)
        ensures
            r.client_timestamp == client_timestamp,
            r.server_timestamp == server_timestamp,
    {
        Self { client_timestamp, server_timestamp }
    }
}

impl View for ConnectedPong {
    type V = ConnectedPong;

    open spec fn view(&self) -> ConnectedPong {
        *self
    }
}

impl Packet for ConnectedPong {
    open spec fn packet_id() -> u8 {
        0x03
    }

    fn id() -> (r: u8) {
        ConnectedPong::ID
    }


    open spec fn writable(v: ConnectedPong) -> bool {
        true
    }

    open spec fn canonical(v: ConnectedPong) -> bool {
        true
    }

    /// The two clocks, big-endian, the probe's first.
    open spec fn body(v: ConnectedPong) -> Seq<u8> {
        uint_bytes(i64_bits(v.client_timestamp), 8, Endian::Big) + uint_bytes(
            i64_bits(v.server_timestamp),
            8,
            Endian::Big,
        )
    }

    open spec fn parse(body: Seq<u8>) -> Result<ConnectedPong, CodecError> {
        if !fits(body, 0, 16) {
            Err(CodecError::UnexpectedEof)
        } else {
            Ok(
                ConnectedPong {
                    client_timestamp: i64_of_bits(uint_at(body, 0, 8, Endian::Big)),
                    server_timestamp: i64_of_bits(uint_at(body, 8, 8, Endian::Big)),
                },
            )
        }
    }

    fn read(payload: &[u8]) -> (r: Result<Self, CodecError>) {
        let mut cursor = Reader::new(payload);
        let client_timestamp: i64 = cursor.read_i64(Endian::Big)?;
        let server_timestamp: i64 = cursor.read_i64(Endian::Big)?;
        Ok(Self { client_timestamp, server_timestamp })
    }

    fn write(&self) -> (r: Result<Vec<u8>, CodecError>) {
        let mut cursor = Writer::new(Vec::new());
        let _ = cursor.write_i64(self.client_timestamp, Endian::Big);
        let _ = cursor.write_i64(self.server_timestamp, Endian::Big);
        let out: Vec<u8> = cursor.get_raw_payload();
        assert(out@ =~= Self::body(self@));
        Ok(out)
    }

    proof fn lemma_round_trip(v: ConnectedPong) {
        let first = uint_bytes(i64_bits(v.client_timestamp), 8, Endian::Big);
        let second = uint_bytes(i64_bits(v.server_timestamp), 8, Endian::Big);
        lemma_uint_bytes_len(i64_bits(v.client_timestamp), 8, Endian::Big);
        lemma_uint_bytes_len(i64_bits(v.server_timestamp), 8, Endian::Big);
        lemma_concat4(first, second, Seq::<u8>::empty(), Seq::<u8>::empty());
        assert(Self::body(v) =~= first + second + Seq::<u8>::empty() + Seq::<u8>::empty());
        lemma_i64_field(Self::body(v), 0, v.client_timestamp, Endian::Big);
        lemma_i64_field(Self::body(v), 8, v.server_timestamp, Endian::Big);
    }
}

} // verus!
