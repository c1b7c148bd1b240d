use crate::address::Address;
use crate::bytes::{be_bytes, be_value, lemma_pow256_values, magic};
use crate::error::CodecError;
use crate::packets::{expect_magic, magic_at, Packet};
use crate::reader::{address_at, fits, slice_at, Endian, Reader};
use crate::writer::{address_len, address_wire, lemma_address_field, lemma_concat4, Writer};
use vstd::prelude::*;

verus! {

/// The second request of the handshake: the address the client reached the
/// server at, the size of datagram agreed on, and the client's identifier.
#[derive(Clone, Copy, Debug, PartialEq, Eq, Structural)]
pub struct OpenConnectionRequest2 {
    pub address: Address,
    pub mtu: u16,
    pub guid: u64,
}

impl OpenConnectionRequest2 {
    /// The byte that names the packet on the wire.
    pub const ID: u8 = 0x07;

    pub fn new(address: Address, mtu: u16, guid: u64) -> (r: Self)
        ensures
            r.address == address,
            r.mtu == mtu,
            r.guid == guid,
    {
        Self { address, mtu, guid }
    }
}

impl View for OpenConnectionRequest2 {
    type V = OpenConnectionRequest2;

    open spec fn view(&self) -> OpenConnectionRequest2 {
        *self
    }
}

impl Packet for OpenConnectionRequest2 {
    open spec fn packet_id() -> u8 {
        0x07
    }

    fn id() -> (r: u8) {
        OpenConnectionRequest2::ID
    }


    open spec fn writable(v: OpenConnectionRequest2) -> bool {
        true
    }

    open spec fn canonical(v: OpenConnectionRequest2) -> bool {
        true
    }

    /// The offline marker, the address, the datagram size and the
    /// identifier, numbers big-endian.
    open spec fn body(v: OpenConnectionRequest2) -> Seq<u8> {
        magic() + address_wire(v.address) + be_bytes(v.mtu as nat, 2) + be_bytes(v.guid as nat, 8)
    }

    open spec fn parse(body: Seq<u8>) -> Result<OpenConnectionRequest2, CodecError> {
        match magic_at(body, 0) {
            Err(e) => Err(e),
            Ok(_) => match address_at(body, 16) {
                Err(e) => Err(e),
                Ok(found) => if !fits(body, 16 + found.1, 10) {
                    Err(CodecError::UnexpectedEof)
                } else {
                    Ok(
                        OpenConnectionRequest2 {
                            address: found.0,
                            mtu: be_value(slice_at(body, 16 + found.1, 2)) as u16,
                            guid: be_value(slice_at(body, 16 + found.1 + 2, 8)) as u64,
                        },
                    )
                },
            },
        }
    }

    fn read(payload: &[u8]) -> (r: Result<Self, CodecError>) {
        let mut cursor = Reader::new(payload);
        expect_magic(&mut cursor)?;
        let address: Address = cursor.read_address()?;
        let mtu: u16 = cursor.read_u16(Endian::Big)?;
        let guid: u64 = cursor.read_u64(Endian::Big)?;
        Ok(Self { address, mtu, guid })
    }

    fn write(&self) -> (r: Result<Vec<u8>, CodecError>) {
        let mut cursor = Writer::new(Vec::new());
        let _ = cursor.write_magic();
        let _ = cursor.write_address(self.address);
        let _ = cursor.write_u16(self.mtu, Endian::Big);
        let _ = cursor.write_u64(self.guid, Endian::Big);
        let out: Vec<u8> = cursor.get_raw_payload();
        assert(out@ =~= Self::body(self@));
        Ok(out)
    }

    proof fn lemma_round_trip(v: OpenConnectionRequest2) {
        let address = address_wire(v.address);
        let mtu = be_bytes(v.mtu as nat, 2);
        let guid = be_bytes(v.guid as nat, 8);
        lemma_pow256_values();
        crate::writer::lemma_address_len(v.address);
        crate::bytes::lemma_be_bytes_len(v.mtu as nat, 2);
        crate::bytes::lemma_be_value_of_bytes(v.mtu as nat, 2);
        crate::bytes::lemma_be_bytes_len(v.guid as nat, 8);
        crate::bytes::lemma_be_value_of_bytes(v.guid as nat, 8);
        lemma_concat4(magic(), address, mtu, guid);
        lemma_address_field(Self::body(v), 16, v.address);
    }
}

} // verus!
