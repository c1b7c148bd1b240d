use crate::address::Address;
use crate::bytes::lemma_pow256_values;
use crate::error::CodecError;
use crate::packets::{filler, Packet};
use crate::reader::{address_at, i64_of_bits, uint_at, Endian, Reader};
use crate::writer::{
    address_len, address_wire, i64_bits, lemma_address_field, lemma_concat4, lemma_i64_field,
    lemma_uint_bytes_len, uint_bytes, Writer,
};
use vstd::prelude::*;

verus! {

/// The client's last word in the handshake: the server's address and the
/// two clocks of the acceptance.
#[derive(Clone, Copy, Debug, PartialEq, Eq, Structural)]
pub struct NewIncomingConnection {
    pub server_address: Address,
    pub request_timestamp: i64,
    pub accepted_timestamp: i64,
}

impl NewIncomingConnection {
    /// The byte that names the packet on the wire.
    pub const ID: u8 = 0x13;
}

impl View for NewIncomingConnection {
    type V = NewIncomingConnection;

    open spec fn view(&self) -> NewIncomingConnection {
        *self
    }
}

impl Packet for NewIncomingConnection {
    open spec fn packet_id() -> u8 {
        0x13
    }

    fn id() -> (r: u8) {
        NewIncomingConnection::ID
    }


    open spec fn writable(v: NewIncomingConnection) -> bool {
        true
    }

    open spec fn canonical(v: NewIncomingConnection) -> bool {
        true
    }

    /// The address, ten bytes of 6 where the protocol lists the client's own
    /// addresses, and the two clocks, big-endian.
    open spec fn body(v: NewIncomingConnection) -> Seq<u8> {
        address_wire(v.server_address) + filler(10, 6) + uint_bytes(
            i64_bits(v.request_timestamp),
            8,
            Endian::Big,
        ) + uint_bytes(i64_bits(v.accepted_timestamp), 8, Endian::Big)
    }

    /// The address stands at the front, the clocks in the last sixteen
    /// bytes; what stands between is not looked at.
    open spec fn parse(body: Seq<u8>) -> Result<NewIncomingConnection, CodecError> {
        match address_at(body, 0) {
            Err(e) => Err(e),
            Ok(found) => if body.len() < found.1 + 16 {
                Err(CodecError::UnexpectedEof)
            } else {
                Ok(
                    NewIncomingConnection {
                        server_address: found.0,
                        request_timestamp: i64_of_bits(
                            uint_at(body, (body.len() - 16) as nat, 8, Endian::Big),
                        ),
                        accepted_timestamp: i64_of_bits(
                            uint_at(body, (body.len() - 8) as nat, 8, Endian::Big),
                        ),
                    },
                )
            },
        }
    }

    fn read(payload: &[u8]) -> (r: Result<Self, CodecError>) {
        let mut cursor = Reader::new(payload);
        let server_address: Address = cursor.read_address()?;
        let at: u64 = cursor.pos();
        if (payload.len() as u64) < at + 16 {
            return Err(CodecError::UnexpectedEof);
        }
        cursor.next(payload.len() as u64 - 16 - at);
        let request_timestamp: i64 = cursor.read_i64(Endian::Big)?;
        let accepted_timestamp: i64 = cursor.read_i64(Endian::Big)?;
        Ok(Self { server_address, request_timestamp, accepted_timestamp })
    }

    fn write(&self) -> (r: Result<Vec<u8>, CodecError>) {
        let mut cursor = Writer::new(Vec::new());
        let _ = cursor.write_address(self.server_address);
        let padding: Vec<u8> = vec![0x6u8; 10];
        assert(padding@ =~= filler(10, 6));
        let _ = cursor.write(padding.as_slice());
        let _ = cursor.write_i64(self.request_timestamp, Endian::Big);
        let _ = cursor.write_i64(self.accepted_timestamp, Endian::Big);
        let out: Vec<u8> = cursor.get_raw_payload();
        assert(out@ =~= Self::body(self@));
        Ok(out)
    }

    proof fn lemma_round_trip(v: NewIncomingConnection) {
        let address = address_wire(v.server_address);
        let request = uint_bytes(i64_bits(v.request_timestamp), 8, Endian::Big);
        let accepted = uint_bytes(i64_bits(v.accepted_timestamp), 8, Endian::Big);
        let n = address_len(v.server_address);
        lemma_pow256_values();
        crate::writer::lemma_address_len(v.server_address);
        lemma_uint_bytes_len(i64_bits(v.request_timestamp), 8, Endian::Big);
        lemma_uint_bytes_len(i64_bits(v.accepted_timestamp), 8, Endian::Big);
        lemma_concat4(address, filler(10, 6), request, accepted);
        lemma_address_field(Self::body(v), 0, v.server_address);
        lemma_i64_field(Self::body(v), n + 10, v.request_timestamp, Endian::Big);
        lemma_i64_field(Self::body(v), n + 18, v.accepted_timestamp, Endian::Big);
    }
}

} // verus!
