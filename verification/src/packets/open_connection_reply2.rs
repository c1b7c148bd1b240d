use crate::address::Address;
use crate::bytes::{be_bytes, be_value, lemma_pow256_values, magic};
use crate::error::CodecError;
use crate::packets::{expect_magic, magic_at, Packet};
use crate::reader::{address_at, fits, slice_at, Endian, Reader};
use crate::writer::{address_len, address_wire, lemma_address_field, lemma_concat5, Writer};
use vstd::prelude::*;

verus! {

/// The server's answer to the second request of the handshake: its
/// identifier, the client's address as the server sees it, the size of
/// datagram agreed on, and whether the session is encrypted.
#[derive(Clone, Copy, Debug, PartialEq, Eq, Structural)]
pub struct OpenConnectionReply2 {
    pub guid: u64,
    pub address: Address,
    pub mtu: u16,
    pub encryption_enabled: u8,
}

impl OpenConnectionReply2 {
    /// The byte that names the packet on the wire.
    pub const ID: u8 = 0x08;

    pub fn new(guid: u64, address: Address, mtu: u16, encryption_enabled: bool) -> (r: Self)
        ensures
            r.guid == guid,
            r.address == address,
            r.mtu == mtu,
            r.encryption_enabled == if encryption_enabled {
                1u8
            } else {
                0u8
            },
    {
        Self { guid, address, mtu, encryption_enabled: if encryption_enabled { 1 } else { 0 } }
    }
}

impl View for OpenConnectionReply2 {
    type V = OpenConnectionReply2;

    open spec fn view(&self) -> OpenConnectionReply2 {
        *self
    }
}

impl Packet for OpenConnectionReply2 {
    open spec fn packet_id() -> u8 {
        0x08
    }

    fn id() -> (r: u8) {
        OpenConnectionReply2::ID
    }


    open spec fn writable(v: OpenConnectionReply2) -> bool {
        true
    }

    open spec fn canonical(v: OpenConnectionReply2) -> bool {
        true
    }

    /// The offline marker, the identifier, the address, the datagram size
    /// and the encryption byte, numbers big-endian.
    open spec fn body(v: OpenConnectionReply2) -> Seq<u8> {
        magic() + be_bytes(v.guid as nat, 8) + address_wire(v.address) + be_bytes(v.mtu as nat, 2)
            + seq![v.encryption_enabled]
    }

    open spec fn parse(body: Seq<u8>) -> Result<OpenConnectionReply2, CodecError> {
        match magic_at(body, 0) {
            Err(e) => Err(e),
            Ok(_) => if !fits(body, 16, 8) {
                Err(CodecError::UnexpectedEof)
            } else {
                match address_at(body, 24) {
                    Err(e) => Err(e),
                    Ok(found) => if !fits(body, 24 + found.1, 3) {
                        Err(CodecError::UnexpectedEof)
                    } else {
                        Ok(
                            OpenConnectionReply2 {
                                guid: be_value(slice_at(body, 16, 8)) as u64,
                                address: found.0,
                                mtu: be_value(slice_at(body, 24 + found.1, 2)) as u16,
                                encryption_enabled: body[24 + found.1 as int + 2],
                            },
                        )
                    },
                }
            },
        }
    }

    fn read(payload: &[u8]) -> (r: Result<Self, CodecError>) {
        let mut cursor = Reader::new(payload);
        expect_magic(&mut cursor)?;
        let guid: u64 = cursor.read_u64(Endian::Big)?;
        let address: Address = cursor.read_address()?;
        let mtu: u16 = cursor.read_u16(Endian::Big)?;
        let encryption_enabled: u8 = cursor.read_u8()?;
        Ok(Self { guid, address, mtu, encryption_enabled })
    }

    fn write(&self) -> (r: Result<Vec<u8>, CodecError>) {
        let mut cursor = Writer::new(Vec::new());
        let _ = cursor.write_magic();
        let _ = cursor.write_u64(self.guid, Endian::Big);
        let _ = cursor.write_address(self.address);
        let _ = cursor.write_u16(self.mtu, Endian::Big);
        let _ = cursor.write_u8(self.encryption_enabled);
        let out: Vec<u8> = cursor.get_raw_payload();
        assert(out@ =~= Self::body(self@));
        Ok(out)
    }

    proof fn lemma_round_trip(v: OpenConnectionReply2) {
        let guid = be_bytes(v.guid as nat, 8);
        let address = address_wire(v.address);
        let mtu = be_bytes(v.mtu as nat, 2);
        lemma_pow256_values();
        crate::writer::lemma_address_len(v.address);
        crate::bytes::lemma_be_bytes_len(v.mtu as nat, 2);
        crate::bytes::lemma_be_value_of_bytes(v.mtu as nat, 2);
        crate::bytes::lemma_be_bytes_len(v.guid as nat, 8);
        crate::bytes::lemma_be_value_of_bytes(v.guid as nat, 8);
        lemma_concat5(magic(), guid, address, mtu, seq![v.encryption_enabled]);
        lemma_address_field(Self::body(v), 24, v.address);
        let at = (26 + address_len(v.address)) as nat;
        assert(slice_at(Self::body(v), at, 1)[0] == Self::body(v)[at as int]);
    }
}

} // verus!
