use crate::bytes::{be_bytes, be_value, lemma_pow256_values, magic};
use crate::error::CodecError;
use crate::packets::{expect_magic, magic_at, Packet};
use crate::reader::{fits, slice_at, Endian, Reader};
use crate::writer::{lemma_concat4, Writer};
use vstd::prelude::*;

verus! {

/// The server's answer to a peer that speaks another version of the
/// protocol: the version the server speaks, and the server's identifier.
#[derive(Clone, Copy, Debug, PartialEq, Eq, Structural)]
pub struct IncompatibleProtocolVersion {
    pub server_protocol: u8,
    pub server_guid: u64,
}

impl IncompatibleProtocolVersion {
    /// The byte that names the packet on the wire.
    pub const ID: u8 = 0x19;

    pub fn new(protocol_v: u8, guid: u64) -> (r: Self)
        ensures
            r.server_protocol == protocol_v,
            r.server_guid == guid,
    {
        Self { server_protocol: protocol_v, server_guid: guid }
    }
}

impl View for IncompatibleProtocolVersion {
    type V = IncompatibleProtocolVersion;

    open spec fn view(&self) -> IncompatibleProtocolVersion {
        *self
    }
}

impl Packet for IncompatibleProtocolVersion {
    open spec fn packet_id() -> u8 {
        0x19
    }

    fn id() -> (r: u8) {
        IncompatibleProtocolVersion::ID
    }


    open spec fn writable(v: IncompatibleProtocolVersion) -> bool {
        true
    }

    open spec fn canonical(v: IncompatibleProtocolVersion) -> bool {
        true
    }

    /// The version, the offline marker, the identifier, big-endian.
    open spec fn body(v: IncompatibleProtocolVersion) -> Seq<u8> {
        seq![v.server_protocol] + magic() + be_bytes(v.server_guid as nat, 8)
    }

    open spec fn parse(body: Seq<u8>) -> Result<IncompatibleProtocolVersion, CodecError> {
        if !fits(body, 0, 1) {
            Err(CodecError::UnexpectedEof)
        } else {
            match magic_at(body, 1) {
                Err(e) => Err(e),
                Ok(_) => if !fits(body, 17, 8) {
                    Err(CodecError::UnexpectedEof)
                } else {
                    Ok(
                        IncompatibleProtocolVersion {
                            server_protocol: body[0],
                            server_guid: be_value(slice_at(body, 17, 8)) as u64,
                        },
                    )
                },
            }
        }
    }

    fn read(payload: &[u8]) -> (r: Result<Self, CodecError>) {
        let mut cursor = Reader::new(payload);
        let server_protocol: u8 = cursor.read_u8()?;
        expect_magic(&mut cursor)?;
        let server_guid: u64 = cursor.read_u64(Endian::Big)?;
        Ok(Self { server_protocol, server_guid })
    }

    fn write(&self) -> (r: Result<Vec<u8>, CodecError>) {
        let mut cursor = Writer::new(Vec::new());
        let _ = cursor.write_u8(self.server_protocol);
        let _ = cursor.write_magic();
        let _ = cursor.write_u64(self.server_guid, Endian::Big);
        let out: Vec<u8> = cursor.get_raw_payload();
        assert(out@ =~= Self::body(self@));
        Ok(out)
    }

    proof fn lemma_round_trip(v: IncompatibleProtocolVersion) {
        let guid = be_bytes(v.server_guid as nat, 8);
        lemma_pow256_values();
        crate::bytes::lemma_be_bytes_len(v.server_guid as nat, 8);
        crate::bytes::lemma_be_value_of_bytes(v.server_guid as nat, 8);
        lemma_concat4(seq![v.server_protocol], magic(), guid, Seq::<u8>::empty());
        assert(Self::body(v) =~= seq![v.server_protocol] + magic() + guid + Seq::<u8>::empty());
        assert(slice_at(Self::body(v), 0, 1)[0] == Self::body(v)[0]);
    }
}

} // verus!
