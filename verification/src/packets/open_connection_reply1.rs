use crate::bytes::{be_bytes, be_value, lemma_pow256_values, magic};
use crate::error::CodecError;
use crate::packets::{expect_magic, magic_at, Packet};
use crate::reader::{fits, slice_at, Endian, Reader};
use crate::writer::{lemma_concat4, Writer};
use vstd::prelude::*;

verus! {

/// The server's answer to the first request of the handshake: its
/// identifier, whether it encrypts, and the size of datagram it agrees to.
#[derive(Clone, Copy, Debug, PartialEq, Eq, Structural)]
pub struct OpenConnectionReply1 {
    pub guid: u64,
    pub use_encryption: u8,
    pub mtu_size: u16,
}

impl OpenConnectionReply1 {
    /// The byte that names the packet on the wire.
    pub const ID: u8 = 0x06;

    pub fn new(guid: u64, use_encryption: bool, mtu_size: u16) -> (r: Self)
        ensures
            r.guid == guid,
            r.use_encryption == if use_encryption {
                1u8
            } else {
                0u8
            },
            r.mtu_size == mtu_size,
    {
        Self { guid, use_encryption: if use_encryption { 1 } else { 0 }, mtu_size }
    }
}

impl View for OpenConnectionReply1 {
    type V = OpenConnectionReply1;

    open spec fn view(&self) -> OpenConnectionReply1 {
        *self
    }
}

impl Packet for OpenConnectionReply1 {
    open spec fn packet_id() -> u8 {
        0x06
    }

    fn id() -> (r: u8) {
        OpenConnectionReply1::ID
    }


    open spec fn writable(v: OpenConnectionReply1) -> bool {
        true
    }

    open spec fn canonical(v: OpenConnectionReply1) -> bool {
        true
    }

    /// The offline marker, the identifier, the encryption byte and the
    /// datagram size, numbers big-endian.
    open spec fn body(v: OpenConnectionReply1) -> Seq<u8> {
        magic() + be_bytes(v.guid as nat, 8) + seq![v.use_encryption] + be_bytes(
            v.mtu_size as nat,
            2,
        )
    }

    open spec fn parse(body: Seq<u8>) -> Result<OpenConnectionReply1, CodecError> {
        match magic_at(body, 0) {
            Err(e) => Err(e),
            Ok(_) => if !fits(body, 16, 11) {
                Err(CodecError::UnexpectedEof)
            } else {
                Ok(
                    OpenConnectionReply1 {
                        guid: be_value(slice_at(body, 16, 8)) as u64,
                        use_encryption: body[24],
                        mtu_size: be_value(slice_at(body, 25, 2)) as u16,
                    },
                )
            },
        }
    }

    fn read(payload: &[u8]) -> (r: Result<Self, CodecError>) {
        let mut cursor = Reader::new(payload);
        expect_magic(&mut cursor)?;
        let guid: u64 = cursor.read_u64(Endian::Big)?;
        let use_encryption: u8 = cursor.read_u8()?;
        let mtu_size: u16 = cursor.read_u16(Endian::Big)?;
        Ok(Self { guid, use_encryption, mtu_size })
    }

    fn write(&self) -> (r: Result<Vec<u8>, CodecError>) {
        let mut cursor = Writer::new(Vec::new());
        let _ = cursor.write_magic();
        let _ = cursor.write_u64(self.guid, Endian::Big);
        let _ = cursor.write_u8(self.use_encryption);
        let _ = cursor.write_u16(self.mtu_size, Endian::Big);
        let out: Vec<u8> = cursor.get_raw_payload();
        assert(out@ =~= Self::body(self@));
        Ok(out)
    }

    proof fn lemma_round_trip(v: OpenConnectionReply1) {
        let guid = be_bytes(v.guid as nat, 8);
        let mtu = be_bytes(v.mtu_size as nat, 2);
        lemma_pow256_values();
        crate::bytes::lemma_be_bytes_len(v.guid as nat, 8);
        crate::bytes::lemma_be_value_of_bytes(v.guid as nat, 8);
        crate::bytes::lemma_be_bytes_len(v.mtu_size as nat, 2);
        crate::bytes::lemma_be_value_of_bytes(v.mtu_size as nat, 2);
        lemma_concat4(magic(), guid, seq![v.use_encryption], mtu);
        assert(slice_at(Self::body(v), 24, 1)[0] == Self::body(v)[24]);
    }
}

} // verus!
