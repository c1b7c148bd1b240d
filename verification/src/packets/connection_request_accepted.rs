use crate::address::Address;
use crate::bytes::{be_bytes, be_value, lemma_pow256_values};
use crate::error::CodecError;
use crate::packets::{filler, Packet};
use crate::reader::{address_at, fits, i64_of_bits, slice_at, uint_at, Endian, Reader};
use crate::writer::{
    address_len, address_wire, i64_bits, lemma_address_field, lemma_concat5, lemma_i64_field,
    lemma_uint_bytes_len, uint_bytes, Writer,
};
use vstd::prelude::*;

verus! {

/// The server's acceptance of a session: the client's address, the client's
/// place in the server's table, the clock of the request and the server's.
#[derive(Clone, Copy, Debug, PartialEq, Eq, Structural)]
pub struct ConnectionRequestAccepted {
    pub client_address: Address,
    pub system_index: u16,
    pub request_timestamp: i64,
    pub accepted_timestamp: i64,
}

impl ConnectionRequestAccepted {
    /// The byte that names the packet on the wire.
    pub const ID: u8 = 0x10;

    pub fn new(client_address: Address, request_timestamp: i64, accepted_timestamp: i64) -> (r:
        Self)
        ensures
            r.client_address == client_address,
            r.system_index == 0,
            r.request_timestamp == request_timestamp,
            r.accepted_timestamp == accepted_timestamp,
    {
        Self { client_address, system_index: 0, request_timestamp, accepted_timestamp }
    }
}

impl View for ConnectionRequestAccepted {
    type V = ConnectionRequestAccepted;

    open spec fn view(&self) -> ConnectionRequestAccepted {
        *self
    }
}

impl Packet for ConnectionRequestAccepted {
    open spec fn packet_id() -> u8 {
        0x10
    }

    fn id() -> (r: u8) {
        ConnectionRequestAccepted::ID
    }


    open spec fn writable(v: ConnectionRequestAccepted) -> bool {
        true
    }

    open spec fn canonical(v: ConnectionRequestAccepted) -> bool {
        true
    }

    /// The address, the index, ten bytes of 6 where the protocol lists the
    /// server's own addresses, and the two clocks, numbers big-endian.
    open spec fn body(v: ConnectionRequestAccepted) -> Seq<u8> {
        address_wire(v.client_address) + be_bytes(v.system_index as nat, 2) + filler(10, 6)
            + uint_bytes(i64_bits(v.request_timestamp), 8, Endian::Big) + uint_bytes(
            i64_bits(v.accepted_timestamp),
            8,
            Endian::Big,
        )
    }

    /// The address and the index stand at the front, the clocks in the last
    /// sixteen bytes; what stands between is not looked at.
    open spec fn parse(body: Seq<u8>) -> Result<ConnectionRequestAccepted, CodecError> {
        match address_at(body, 0) {
            Err(e) => Err(e),
            Ok(found) => if !fits(body, found.1, 2) {
                Err(CodecError::UnexpectedEof)
            } else if body.len() < found.1 + 2 + 16 {
                Err(CodecError::UnexpectedEof)
            } else {
                Ok(
                    ConnectionRequestAccepted {
                        client_address: found.0,
                        system_index: be_value(slice_at(body, found.1, 2)) as u16,
                        request_timestamp: i64_of_bits(
                            uint_at(body, (body.len() - 16) as nat, 8, Endian::Big),
                        ),
                        accepted_timestamp: i64_of_bits(
                            uint_at(body, (body.len() - 8) as nat, 8, Endian::Big),
                        ),
                    },
                )
            },
        }
    }

    fn read(payload: &[u8]) -> (r: Result<Self, CodecError>) {
        let mut cursor = Reader::new(payload);
        let client_address: Address = cursor.read_address()?;
        let system_index: u16 = cursor.read_u16(Endian::Big)?;
        let at: u64 = cursor.pos();
        if (payload.len() as u64) < at + 16 {
            return Err(CodecError::UnexpectedEof);
        }
        cursor.next(payload.len() as u64 - 16 - at);
        let request_timestamp: i64 = cursor.read_i64(Endian::Big)?;
        let accepted_timestamp: i64 = cursor.read_i64(Endian::Big)?;
        Ok(Self { client_address, system_index, request_timestamp, accepted_timestamp })
    }

    fn write(&self) -> (r: Result<Vec<u8>, CodecError>) {
        let mut cursor = Writer::new(Vec::new());
        let _ = cursor.write_address(self.client_address);
        let _ = cursor.write_u16(self.system_index, Endian::Big);
        let padding: Vec<u8> = vec![0x6u8; 10];
        assert(padding@ =~= filler(10, 6));
        let _ = cursor.write(padding.as_slice());
        let _ = cursor.write_i64(self.request_timestamp, Endian::Big);
        let _ = cursor.write_i64(self.accepted_timestamp, Endian::Big);
        let out: Vec<u8> = cursor.get_raw_payload();
        assert(out@ =~= Self::body(self@));
        Ok(out)
    }

    proof fn lemma_round_trip(v: ConnectionRequestAccepted) {
        let address = address_wire(v.client_address);
        let index = be_bytes(v.system_index as nat, 2);
        let request = uint_bytes(i64_bits(v.request_timestamp), 8, Endian::Big);
        let accepted = uint_bytes(i64_bits(v.accepted_timestamp), 8, Endian::Big);
        let n = address_len(v.client_address);
        lemma_pow256_values();
        crate::writer::lemma_address_len(v.client_address);
        crate::bytes::lemma_be_bytes_len(v.system_index as nat, 2);
        crate::bytes::lemma_be_value_of_bytes(v.system_index as nat, 2);
        lemma_uint_bytes_len(i64_bits(v.request_timestamp), 8, Endian::Big);
        lemma_uint_bytes_len(i64_bits(v.accepted_timestamp), 8, Endian::Big);
        lemma_concat5(address, index, filler(10, 6), request, accepted);
        lemma_address_field(Self::body(v), 0, v.client_address);
        lemma_i64_field(Self::body(v), n + 12, v.request_timestamp, Endian::Big);
        lemma_i64_field(Self::body(v), n + 20, v.accepted_timestamp, Endian::Big);
    }
}

} // verus!
