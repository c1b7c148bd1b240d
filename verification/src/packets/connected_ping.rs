use crate::error::CodecError;
use crate::packets::Packet;
use crate::reader::{fits, i64_of_bits, slice_at, uint_at, Endian, Reader};
use crate::writer::{i64_bits, lemma_i64_field, lemma_uint_bytes_len, uint_bytes, Writer};
use vstd::prelude::*;

verus! {

/// A keepalive probe carrying the sender's clock.
#[derive(Clone, Copy, Debug, PartialEq, Eq, Structural)]
pub struct ConnectedPing {
    pub client_timestamp: i64,
}

impl ConnectedPing {
    /// The byte that names the packet on the wire.
    pub const ID: u8 = 0x00;

    pub fn new(time: i64) -> (r: Self)
        ensures
            r.client_timestamp == time,
    {
        Self { client_timestamp: time }
    }
}

impl View for ConnectedPing {
    type V = ConnectedPing;

    open spec fn view(&self) -> ConnectedPing {
        *self
    }
}

impl Packet for ConnectedPing {
    open spec fn packet_id() -> u8 {
        0x00
    }

    fn id() -> (r: u8) {
        ConnectedPing::ID
    }


    open spec fn writable(v: ConnectedPing) -> bool {
        true
    }

    open spec fn canonical(v: ConnectedPing) -> bool {
        true
    }

    open spec fn body(v: ConnectedPing) -> Seq<u8> {
        uint_bytes(i64_bits(v.client_timestamp), 8, Endian::Big)
    }

    open spec fn parse(body: Seq<u8>) -> Result<ConnectedPing, CodecError> {
        if !fits(body, 0, 8) {
            Err(CodecError::UnexpectedEof)
        } else {
            Ok(ConnectedPing { client_timestamp: i64_of_bits(uint_at(body, 0, 8, Endian::Big)) })
        }
    }

    fn read(payload: &[u8]) -> (r: Result<Self, CodecError>) {
        let mut cursor = Reader::new(payload);
        let client_timestamp: i64 = match cursor.read_i64(Endian::Big) {
            Ok(v) => v,
            Err(e) => {
                return Err(e);
            },
        };
        Ok(Self { client_timestamp })
    }

    fn write(&self) -> (r: Result<Vec<u8>, CodecError>) {
        let mut cursor = Writer::new(Vec::new());
        let _ = cursor.write_i64(self.client_timestamp, Endian::Big);
        let out: Vec<u8> = cursor.get_raw_payload();
        assert(out@ =~= Self::body(self@));
        Ok(out)
    }

    proof fn lemma_round_trip(v: ConnectedPing) {
        lemma_uint_bytes_len(i64_bits(v.client_timestamp), 8, Endian::Big);
        assert(slice_at(Self::body(v), 0, 8) =~= Self::body(v));
        lemma_i64_field(Self::body(v), 0, v.client_timestamp, Endian::Big);
    }
}

} // verus!
